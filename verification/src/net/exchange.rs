//! What crosses a link, read off what a pump is given, what it says and what it
//! leaves behind.

use vstd::prelude::*;

use crate::float::F32;
use crate::net::laws;
use crate::net::link;
use crate::net::link::{Failed, Input, Net};
use crate::net::wire;
use crate::net::wire::Said;
use crate::net::PROTOCOL_VERSION;
use crate::sim::content::Content;
use crate::sim::orders;
use crate::sim::orders::{Claim, CommandTick, Scheduled};
use crate::sim::spatial::Faction;
use crate::sim::world::Entity;

verus! {

/// The link after it has read what arrived.
pub open spec fn informed(st: Net, i: Input) -> Net {
    link::received(Net { greeted: true, ..st }, i.arrived, i.closed, i.seed, i.stamp, i.label)
}

/// Does the link play once it has read what arrived? The peer is known, and
/// nothing has failed.
pub open spec fn plays(st: Net, i: Input) -> bool {
    informed(st, i).peer is Some && informed(st, i).failure is None
}

// ---- what is heard ------------------------------------------------------------

proof fn lemma_heard_rest(
    st: Net,
    all: Seq<Said>,
    seed: u64,
    stamp: u64,
    label: Seq<char>,
    k: int,
)
    ensures
        ({
            let r = link::all_heard(st, all, seed, stamp, label, k);
            &&& r.config == st.config
            &&& r.me == st.me
            &&& r.greeted == st.greeted
            &&& r.my_turns == st.my_turns
            &&& r.last_sent == st.last_sent
            &&& r.pending == st.pending
            &&& r.last_hash == st.last_hash
            &&& r.agreed == st.agreed
            &&& r.waiting == st.waiting
        }),
    decreases k,
{
    if k > 0 {
        lemma_heard_rest(st, all, seed, stamp, label, k - 1);
    }
}

/// Reading what arrived changes nothing of our own side of the link.
pub proof fn hearing_changes_only_the_peers_side(st: Net, i: Input)
    ensures
        informed(st, i).config == st.config,
        informed(st, i).me == st.me,
        informed(st, i).greeted,
        informed(st, i).my_turns == st.my_turns,
        informed(st, i).last_sent == st.last_sent,
        informed(st, i).pending == st.pending,
        informed(st, i).last_hash == st.last_hash,
        informed(st, i).agreed == st.agreed,
        informed(st, i).waiting == st.waiting,
{
    let hello = Net { greeted: true, ..st };
    match i.arrived {
        Ok(all) => lemma_heard_rest(hello, all, i.seed, i.stamp, i.label, all.len() as int),
        Err(_) => {},
    }
}

proof fn lemma_heard_turn(
    st: Net,
    all: Seq<Said>,
    seed: u64,
    stamp: u64,
    label: Seq<char>,
    k: int,
    j: int,
)
    requires
        0 <= j < k <= all.len(),
        all[j] is Turn,
        forall|q: int|
            j < q < k ==> !(#[trigger] all[q] is Turn && all[q]->Turn_tick == all[j]->Turn_tick),
    ensures
        ({
            let r = link::all_heard(st, all, seed, stamp, label, k);
            r.peer_turns.contains_key(all[j]->Turn_tick) && r.peer_turns[all[j]->Turn_tick]
                == all[j]->commands
        }),
    decreases k,
{
    if j < k - 1 {
        lemma_heard_turn(st, all, seed, stamp, label, k - 1, j);
        assert(!(all[k - 1] is Turn && all[k - 1]->Turn_tick == all[j]->Turn_tick));
    }
}

/// A turn that arrived is kept under the tick it is for, as it was said; the last
/// one counts.
pub proof fn turns_are_kept_as_they_arrive(st: Net, i: Input, j: int)
    requires
        i.arrived matches Ok(all) && 0 <= j < all.len() && all[j] is Turn && forall|q: int|
            j < q < all.len() ==> !(#[trigger] all[q] is Turn && all[q]->Turn_tick
                == all[j]->Turn_tick),
    ensures
        ({
            let said = i.arrived->Ok_0[j];
            &&& informed(st, i).peer_turns.contains_key(said->Turn_tick)
            &&& informed(st, i).peer_turns[said->Turn_tick] == said->commands
        }),
{
    let all = i.arrived->Ok_0;
    lemma_heard_turn(
        Net { greeted: true, ..st },
        all,
        i.seed,
        i.stamp,
        i.label,
        all.len() as int,
        j,
    );
}

proof fn lemma_heard_hash(
    st: Net,
    all: Seq<Said>,
    seed: u64,
    stamp: u64,
    label: Seq<char>,
    k: int,
    j: int,
)
    requires
        0 <= j < k <= all.len(),
        all[j] is Hash,
        forall|q: int|
            j < q < k ==> !(#[trigger] all[q] is Hash && all[q]->Hash_tick == all[j]->Hash_tick),
    ensures
        ({
            let r = link::all_heard(st, all, seed, stamp, label, k);
            r.peer_hashes.contains_key(all[j]->Hash_tick) && r.peer_hashes[all[j]->Hash_tick]
                == all[j]->hash
        }),
    decreases k,
{
    if j < k - 1 {
        lemma_heard_hash(st, all, seed, stamp, label, k - 1, j);
        assert(!(all[k - 1] is Hash && all[k - 1]->Hash_tick == all[j]->Hash_tick));
    }
}

/// A hash that arrived is kept under its tick; the last one counts.
pub proof fn hashes_are_kept_as_they_arrive(st: Net, i: Input, j: int)
    requires
        i.arrived matches Ok(all) && 0 <= j < all.len() && all[j] is Hash && forall|q: int|
            j < q < all.len() ==> !(#[trigger] all[q] is Hash && all[q]->Hash_tick
                == all[j]->Hash_tick),
    ensures
        ({
            let said = i.arrived->Ok_0[j];
            &&& informed(st, i).peer_hashes.contains_key(said->Hash_tick)
            &&& informed(st, i).peer_hashes[said->Hash_tick] == said->hash
        }),
{
    let all = i.arrived->Ok_0;
    lemma_heard_hash(
        Net { greeted: true, ..st },
        all,
        i.seed,
        i.stamp,
        i.label,
        all.len() as int,
        j,
    );
}

/// What nobody said is not there: every turn and every hash on record arrived
/// now, or was on record before.
pub proof fn nothing_is_made_up(
    st: Net,
    all: Seq<Said>,
    seed: u64,
    stamp: u64,
    label: Seq<char>,
    k: int,
    tick: u32,
)
    requires
        0 <= k <= all.len(),
    ensures
        ({
            let r = link::all_heard(st, all, seed, stamp, label, k);
            &&& r.peer_turns.contains_key(tick) ==> (st.peer_turns.contains_key(tick)
                && st.peer_turns[tick] == r.peer_turns[tick]) || exists|j: int|
                0 <= j < k && #[trigger] all[j] == (Said::Turn {
                    tick,
                    commands: r.peer_turns[tick],
                })
            &&& r.peer_hashes.contains_key(tick) ==> (st.peer_hashes.contains_key(tick)
                && st.peer_hashes[tick] == r.peer_hashes[tick]) || exists|j: int|
                0 <= j < k && #[trigger] all[j] == (Said::Hash {
                    tick,
                    hash: r.peer_hashes[tick],
                })
        }),
    decreases k,
{
    if k > 0 {
        nothing_is_made_up(st, all, seed, stamp, label, k - 1, tick);
        let p = link::all_heard(st, all, seed, stamp, label, k - 1);
        let r = link::all_heard(st, all, seed, stamp, label, k);
        if r.peer_turns.contains_key(tick) && !(all[k - 1] is Turn && all[k - 1]->Turn_tick == tick) {
            assert(p.peer_turns.contains_key(tick) && p.peer_turns[tick] == r.peer_turns[tick]);
        } else if r.peer_turns.contains_key(tick) {
            assert(all[k - 1] == (Said::Turn { tick, commands: r.peer_turns[tick] }));
        }
        if r.peer_hashes.contains_key(tick) && !(all[k - 1] is Hash && all[k - 1]->Hash_tick
            == tick) {
            assert(p.peer_hashes.contains_key(tick) && p.peer_hashes[tick] == r.peer_hashes[tick]);
        } else if r.peer_hashes.contains_key(tick) {
            assert(all[k - 1] == (Said::Hash { tick, hash: r.peer_hashes[tick] }));
        }
    }
}

/// A connection that cannot be read, or that the peer closed, stops the link.
pub proof fn a_broken_connection_stops_the_link(st: Net, i: Input)
    requires
        i.arrived is Err || i.closed,
    ensures
        informed(st, i).failure is Some,
        st.failure is None && i.arrived is Err ==> informed(st, i).failure == Some(
            Failed::Transport(i.arrived->Err_0),
        ),
{
}

// ---- what is said ---------------------------------------------------------------

/// A link says who it is once, before anything else: which protocol, side, seed
/// and content.
pub proof fn a_link_greets_once(st: Net, content: &Content, i: Input, queue: Seq<Scheduled>)
    ensures
        ({
            let p = link::pumped(st, content, i, queue);
            &&& !st.greeted ==> p.out.len() > 0 && p.out[0] == (Said::Hello {
                protocol: PROTOCOL_VERSION,
                faction: st.me,
                seed: i.seed,
                stamp: i.stamp,
                label: i.label,
            })
            &&& forall|k: int|
                0 <= k < p.out.len() && (k > 0 || st.greeted) ==> !(#[trigger] p.out[k] is Hello)
            &&& !plays(st, i) ==> p.out.len() <= 1 && p.queue == queue && !p.open && p.link
                == informed(st, i)
        }),
{
    if plays(st, i) {
        let p = link::pumped(st, content, i, queue);
        match i.hashes {
            Some(hashes) => {
                let next = link::next_due(decided(st, content, i, queue));
                let every = decided(st, content, i, queue).config.hash_interval_ticks;
                lemma_only_hashes(next, i.now, every, hashes);
            },
            None => {},
        }
    }
}

proof fn lemma_only_hashes(next: u32, now: u32, every: u32, hashes: Seq<u64>)
    ensures
        forall|k: int|
            0 <= k < link::hashes_due(next, now, every, hashes).len() ==> #[trigger] link::hashes_due(
                next,
                now,
                every,
                hashes,
            )[k] is Hash,
    decreases u32::MAX - next,
{
    if every > 0 && next < now && next < hashes.len() {
        let rest = link::hashes_due(link::on(next, every), now, every, hashes);
        lemma_only_hashes(link::on(next, every), now, every, hashes);
        assert forall|k: int|
            0 <= k < link::hashes_due(next, now, every, hashes).len() implies #[trigger] link::hashes_due(
            next,
            now,
            every,
            hashes,
        )[k] is Hash by {
            if k > 0 {
                assert(rest[k - 1] is Hash);
            }
        }
    }
}

/// The link of a pump before it deals with hashes.
spec fn decided(st: Net, content: &Content, i: Input, queue: Seq<Scheduled>) -> Net {
    link::gated(over(st, content, i, queue), i.now, i.waited)
}

/// The link of a pump once it has sent its turn.
spec fn sent(st: Net, i: Input, queue: Seq<Scheduled>) -> Net {
    let read = informed(st, i);
    let taken = Net { pending: read.pending + orders::unscheduled(queue), ..read };
    let turn = (i.now + read.config.turn_delay_ticks) as u32;
    if link::unsent(read.last_sent, turn) {
        link::turn_sent(taken, turn)
    } else {
        taken
    }
}

/// The link of a pump once the tick has its commands.
spec fn over(st: Net, content: &Content, i: Input, queue: Seq<Scheduled>) -> Net {
    link::handed_over(sent(st, i, queue), i.ids, content, i.now)
}

proof fn lemma_puzzled_rest(st: Net, ids: Seq<Entity>, content: &Content, all: Seq<Claim>, k: int)
    ensures
        ({
            let p = link::puzzled(st, ids, content, all, k);
            p == Net { failure: p.failure, ..st }
        }),
    decreases k,
{
    if k > 0 {
        lemma_puzzled_rest(st, ids, content, all, k - 1);
    }
}

proof fn lemma_over(st: Net, content: &Content, i: Input, queue: Seq<Scheduled>)
    ensures
        ({
            let a = sent(st, i, queue);
            let b = over(st, content, i, queue);
            b == Net { failure: b.failure, my_turns: b.my_turns, ..a }
        }),
{
    let a = sent(st, i, queue);
    if a.peer_turns.contains_key(i.now) {
        let theirs = a.peer_turns[i.now];
        lemma_puzzled_rest(
            Net { my_turns: a.my_turns.remove(i.now), ..a },
            i.ids,
            content,
            theirs,
            theirs.len() as int,
        );
    }
}

/// What is left of claims without those that only sign.
pub open spec fn plain(all: Seq<Claim>) -> Seq<Claim> {
    all.filter(|c: Claim| !(c.asked is Signature))
}

/// The claims of a queue that have no tick of their own.
pub open spec fn waiting_claims(queue: Seq<Scheduled>) -> Seq<Claim> {
    queue.filter(|c: Scheduled| c.when is Asap).map_values(|c: Scheduled| c.claim)
}

/// The commands of a queue that have a tick of their own.
pub open spec fn timed(queue: Seq<Scheduled>) -> Seq<Scheduled> {
    queue.filter(|c: Scheduled| !(c.when is Asap))
}

proof fn lemma_plain(all: Seq<Claim>)
    ensures
        link::orders_only(all) == plain(all),
    decreases all.len(),
{
    reveal(Seq::filter);
    if all.len() > 0 {
        lemma_plain(all.drop_last());
    }
}

proof fn lemma_waiting(queue: Seq<Scheduled>)
    ensures
        orders::unscheduled(queue) == waiting_claims(queue),
        orders::scheduled(queue) == timed(queue),
    decreases queue.len(),
{
    reveal(Seq::filter);
    let p = |c: Scheduled| c.when is Asap;
    let claim = |c: Scheduled| c.claim;
    if queue.len() > 0 {
        lemma_waiting(queue.drop_last());
        let before = queue.drop_last().filter(p);
        if queue.last().when is Asap {
            assert(queue.filter(p) == before.push(queue.last()));
            assert(queue.filter(p).map_values(claim) =~= before.map_values(claim).push(
                queue.last().claim,
            ));
        } else {
            assert(queue.filter(p) == before);
        }
    } else {
        assert(orders::unscheduled(queue) =~= waiting_claims(queue));
        assert(orders::scheduled(queue) =~= timed(queue));
    }
}

/// Local commands are sent for a tick that both sides can still meet, and held
/// for the same tick here: a pump of a link that plays takes every command that
/// has no tick of its own off the queue, says them for the tick that lies the
/// turn delay ahead, and keeps them for that tick. A turn that was already said
/// is not said again, and what comes meanwhile waits.
pub proof fn local_commands_are_sent_ahead(
    st: Net,
    content: &Content,
    i: Input,
    queue: Seq<Scheduled>,
)
    requires
        plays(st, i),
        st.config.turn_delay_ticks > 0,
        i.now + st.config.turn_delay_ticks <= u32::MAX,
    ensures
        ({
            let p = link::pumped(st, content, i, queue);
            let turn = (i.now + st.config.turn_delay_ticks) as u32;
            let mine = st.pending + waiting_claims(queue);
            let due = st.last_sent is None || st.last_sent->0 < turn;
            let said = Said::Turn {
                tick: turn,
                commands: plain(mine).map_values(|c: Claim| link::wired(i.ids, c)),
            };
            &&& due ==> p.link.last_sent == Some(turn) && p.link.pending.len() == 0
                && p.link.my_turns.contains_key(turn) && p.link.my_turns[turn] == plain(mine)
            &&& !due ==> p.link.last_sent == st.last_sent && p.link.pending == mine
            &&& forall|k: int|
                0 <= k < p.out.len() && #[trigger] p.out[k] is Turn ==> due && p.out[k] == said
            &&& due ==> exists|k: int| 0 <= k < p.out.len() && #[trigger] p.out[k] == said
            &&& forall|j: int, k: int|
                0 <= j < k < p.out.len() ==> !(#[trigger] p.out[j] is Turn
                    && #[trigger] p.out[k] is Turn)
        }),
{
    let p = link::pumped(st, content, i, queue);
    let turn = (i.now + st.config.turn_delay_ticks) as u32;
    let mine = st.pending + waiting_claims(queue);
    hearing_changes_only_the_peers_side(st, i);
    lemma_waiting(queue);
    lemma_plain(mine);
    lemma_over(st, content, i, queue);
    let a = sent(st, i, queue);
    let b = over(st, content, i, queue);
    let due = st.last_sent is None || st.last_sent->0 < turn;
    let g = link::greeting(st, i.seed, i.stamp, i.label);
    if sent(st, i, queue).peer_turns.contains_key(i.now) {
        let theirs = a.peer_turns[i.now];
        lemma_puzzled_rest(
            Net { my_turns: a.my_turns.remove(i.now), ..a },
            i.ids,
            content,
            theirs,
            theirs.len() as int,
        );
    }
    if due {
        assert(p.out[g.len() as int] is Turn);
    }
    match i.hashes {
        Some(hashes) => {
            let gate = decided(st, content, i, queue);
            let next = link::next_due(gate);
            let every = gate.config.hash_interval_ticks;
            lemma_only_hashes(next, i.now, every, hashes);
            let told = Net {
                last_hash: link::last_due(gate.last_hash, next, i.now, every, hashes),
                ..gate
            };
            lemma_compared_rest(told, hashes, hashes.len() as int);
        },
        None => {},
    }
}

proof fn lemma_compared_rest(st: Net, hashes: Seq<u64>, t: int)
    ensures
        ({
            let r = link::compared(st, hashes, t);
            r == Net { peer_hashes: r.peer_hashes, agreed: r.agreed, failure: r.failure, ..st }
        }),
    decreases t,
{
    if t > 0 {
        lemma_compared_rest(st, hashes, t - 1);
    }
}

// ---- what a tick is handed --------------------------------------------------------

/// Both peers hand a tick the same commands in the same order: `A`'s, as `A` gave
/// them, and then `B`'s, each for this very tick. It holds whenever each side has
/// its own turn and the other's, and their registries and content agree.
pub proof fn both_hand_over_the_same(
    a: Net,
    b: Net,
    ids: Seq<Entity>,
    content: &Content,
    now: u32,
    x: Seq<Claim>,
    y: Seq<Claim>,
)
    requires
        a.me == Faction::A,
        b.me == Faction::B,
        a.my_turns.contains_key(now) && a.my_turns[now] == x,
        b.my_turns.contains_key(now) && b.my_turns[now] == y,
        a.peer_turns.contains_key(now) && a.peer_turns[now] == y.map_values(
            |c: Claim| link::wired(ids, c),
        ),
        b.peer_turns.contains_key(now) && b.peer_turns[now] == x.map_values(
            |c: Claim| link::wired(ids, c),
        ),
        ids.len() <= u64::MAX,
        forall|i: int| 0 <= i < x.len() ==> laws::sendable(ids, content, #[trigger] x[i]),
        forall|i: int| 0 <= i < y.len() ==> laws::sendable(ids, content, #[trigger] y[i]),
    ensures
        ({
            let all = link::handed(a, ids, content, now);
            &&& link::handed(b, ids, content, now) == all
            &&& all.len() == x.len() + y.len()
            &&& forall|i: int|
                0 <= i < x.len() ==> #[trigger] all[i] == (Scheduled {
                    when: CommandTick::At(now),
                    claim: x[i],
                })
            &&& forall|i: int|
                x.len() <= i < all.len() ==> #[trigger] all[i] == (Scheduled {
                    when: CommandTick::At(now),
                    claim: y[i - x.len()],
                })
            &&& !link::handed_over(a, ids, content, now).my_turns.contains_key(now)
            &&& link::handed_over(a, ids, content, now).failure == a.failure
        }),
{
    laws::a_turn_means_the_same_on_both_sides(ids, content, x, x.len() as int);
    laws::a_turn_means_the_same_on_both_sides(ids, content, y, y.len() as int);
    assert(x.take(x.len() as int) =~= x);
    assert(y.take(y.len() as int) =~= y);
    assert(link::handed(a, ids, content, now) =~= link::handed(b, ids, content, now));
    let cut = Net { my_turns: a.my_turns.remove(now), ..a };
    let sent = y.map_values(|c: Claim| link::wired(ids, c));
    lemma_puzzled_rest(cut, ids, content, sent, sent.len() as int);
    lemma_not_puzzled(cut, ids, content, y, y.len() as int);
}

proof fn lemma_not_puzzled(st: Net, ids: Seq<Entity>, content: &Content, y: Seq<Claim>, k: int)
    requires
        0 <= k <= y.len(),
        ids.len() <= u64::MAX,
        forall|i: int| 0 <= i < y.len() ==> laws::sendable(ids, content, #[trigger] y[i]),
    ensures
        link::puzzled(st, ids, content, y.map_values(|c: Claim| link::wired(ids, c)), k) == st,
    decreases k,
{
    if k > 0 {
        lemma_not_puzzled(st, ids, content, y, k - 1);
        assert(laws::sendable(ids, content, y[k - 1]));
        wire::the_wire_keeps_meaning(ids, content, y[k - 1].asked);
    }
}

/// A pump of a link that plays leaves in the queue what had a tick of its own,
/// and after it what this tick is handed; without the peer's turn nothing is
/// handed.
pub proof fn the_queue_is_handed_on(st: Net, content: &Content, i: Input, queue: Seq<Scheduled>)
    requires
        plays(st, i),
    ensures
        ({
            let p = link::pumped(st, content, i, queue);
            let n = timed(queue).len();
            &&& p.queue.len() >= n
            &&& p.queue.take(n as int) == timed(queue)
            &&& forall|k: int| n <= k < p.queue.len() ==> (#[trigger] p.queue[k]).when == CommandTick::At(
                i.now,
            )
            &&& !informed(st, i).peer_turns.contains_key(i.now) ==> p.queue == timed(queue)
        }),
{
    lemma_waiting(queue);
    let p = link::pumped(st, content, i, queue);
    assert(p.queue.take(timed(queue).len() as int) =~= timed(queue));
    if !informed(st, i).peer_turns.contains_key(i.now) {
        assert(p.queue =~= timed(queue));
    }
}

// ---- letting a tick run -----------------------------------------------------------------

/// A tick runs exactly if the peer is known, nothing has failed, and the peer's
/// turn for it is here, or none can exist yet.
pub proof fn a_tick_runs_exactly_when_it_may(
    st: Net,
    content: &Content,
    i: Input,
    queue: Seq<Scheduled>,
)
    ensures
        ({
            let p = link::pumped(st, content, i, queue);
            p.open <==> p.link.peer is Some && p.link.failure is None && (i.now
                < st.config.turn_delay_ticks || p.link.peer_turns.contains_key(i.now)) && plays(
                st,
                i,
            )
        }),
{
    let p = link::pumped(st, content, i, queue);
    hearing_changes_only_the_peers_side(st, i);
    if p.open {
        laws::the_gate_opens_only_on_a_sound_link(st, content, i, queue);
    } else if plays(st, i) && p.link.failure is None {
        lemma_over(st, content, i, queue);
        let gate = decided(st, content, i, queue);
        match i.hashes {
            Some(hashes) => {
                let told = Net {
                    last_hash: link::last_due(
                        gate.last_hash,
                        link::next_due(gate),
                        i.now,
                        gate.config.hash_interval_ticks,
                        hashes,
                    ),
                    ..gate
                };
                let n = hashes.len() as int;
                lemma_compared_rest(told, hashes, n);
                lemma_agreement(told, hashes, n);
            },
            None => {},
        }
    }
}

proof fn lemma_agreement(st: Net, hashes: Seq<u64>, t: int)
    requires
        t <= hashes.len(),
        link::compared(st, hashes, t).failure is None,
    ensures
        st.failure is None,
        !link::differs(st, hashes, t),
    decreases t,
{
    if t > 0 {
        let before = link::compared(st, hashes, t - 1);
        if before.failure is Some {
            assert(link::compared(st, hashes, t).failure is Some);
        }
        lemma_agreement(st, hashes, t - 1);
        if link::differs(st, hashes, t) {
            let u = choose|u: u32|
                u < t && #[trigger] st.peer_hashes.contains_key(u) && st.peer_hashes[u]
                    != hashes[u as int];
            if u < t - 1 {
                assert(link::differs(st, hashes, t - 1));
            } else {
                assert(u == (t - 1) as u32);
            }
        }
    }
}

/// A link waits no longer than it was told to: while the peer's turn is missing
/// the wait is what it has been so far, one that exceeds the limit stops the link
/// there, and a turn that is here ends the wait.
pub proof fn a_wait_is_limited(st: Net, now: u32, waited: F32)
    ensures
        ({
            let here = now < st.config.turn_delay_ticks || st.peer_turns.contains_key(now);
            let r = link::gated(st, now, waited);
            &&& here ==> r.waiting == F32::zero() && r.failure == st.failure
            &&& !here ==> r.waiting == waited
            &&& !here && st.failure is None && st.config.stall_timeout_secs.less(waited)
                ==> r.failure == Some(Failed::Stalled { tick: now, waited_secs: waited })
            &&& !here && !st.config.stall_timeout_secs.less(waited) ==> r.failure == st.failure
            &&& st.failure is Some ==> r.failure == st.failure
        }),
{
}

// ---- hashes -----------------------------------------------------------------------------

/// Is `t` a tick whose hash is exchanged?
pub open spec fn on_the_interval(t: int, every: u32) -> bool {
    t % every as int == 0
}

proof fn lemma_next_multiple(t: int, next: int, every: int)
    requires
        every > 0,
        t % every == 0,
        next % every == 0,
        next < t,
    ensures
        next + every <= t,
{
    let (p, q) = (next / every, t / every);
    vstd::arithmetic::div_mod::lemma_fundamental_div_mod(next, every);
    vstd::arithmetic::div_mod::lemma_fundamental_div_mod(t, every);
    assert(p < q) by (nonlinear_arith)
        requires
            every * p < every * q,
            every > 0,
    ;
    assert(every * (p + 1) <= every * q) by (nonlinear_arith)
        requires
            p + 1 <= q,
            every > 0,
    ;
    assert(every * (p + 1) == every * p + every) by (nonlinear_arith);
}

proof fn lemma_step_multiple(next: int, every: int)
    requires
        every > 0,
        next % every == 0,
    ensures
        (next + every) % every == 0,
{
    vstd::arithmetic::div_mod::lemma_mod_add_multiples_vanish(next, every);
}

proof fn lemma_due(last: Option<u32>, next: u32, now: u32, every: u32, hashes: Seq<u64>)
    requires
        every > 0,
        next < u32::MAX ==> on_the_interval(next as int, every),
    ensures
        ({
            let r = link::hashes_due(next, now, every, hashes);
            let l = link::last_due(last, next, now, every, hashes);
            &&& forall|k: int|
                0 <= k < r.len() ==> {
                    let f = #[trigger] r[k];
                    &&& f is Hash
                    &&& next <= f->Hash_tick < now
                    &&& f->Hash_tick < hashes.len()
                    &&& on_the_interval(f->Hash_tick as int, every)
                    &&& f->hash == hashes[f->Hash_tick as int]
                }
            &&& forall|j: int, k: int|
                0 <= j < k < r.len() ==> (#[trigger] r[j])->Hash_tick < (#[trigger] r[k])->Hash_tick
            &&& forall|t: u32|
                next <= t < now && t < hashes.len() && #[trigger] on_the_interval(t as int, every)
                    ==> exists|k: int|
                    0 <= k < r.len() && (#[trigger] r[k])->Hash_tick == t
            &&& r.len() == 0 ==> l == last
            &&& r.len() > 0 ==> l == Some(r.last()->Hash_tick)
        }),
    decreases u32::MAX - next,
{
    let r = link::hashes_due(next, now, every, hashes);
    if next < now && next < hashes.len() {
        let then = link::on(next, every);
        let first = Said::Hash { tick: next, hash: hashes[next as int] };
        lemma_step_multiple(next as int, every as int);
        lemma_due(Some(next), then, now, every, hashes);
        let rest = link::hashes_due(then, now, every, hashes);
        assert(r == seq![first] + rest);
        assert(r[0] == first);
        assert forall|k: int| 0 < k < r.len() implies #[trigger] r[k] == rest[k - 1] by {}
        assert forall|t: u32|
            next <= t < now && t < hashes.len() && #[trigger] on_the_interval(
                t as int,
                every,
            ) implies exists|k: int| 0 <= k < r.len() && (#[trigger] r[k])->Hash_tick == t by {
            if t == next {
                assert(r[0]->Hash_tick == t);
            } else {
                lemma_next_multiple(t as int, next as int, every as int);
                assert(then <= t);
                let k = choose|k: int| 0 <= k < rest.len() && (#[trigger] rest[k])->Hash_tick == t;
                assert(r[k + 1]->Hash_tick == t);
            }
        }
        assert forall|j: int, k: int| 0 <= j < k < r.len() implies (#[trigger] r[j])->Hash_tick < (
        #[trigger] r[k])->Hash_tick by {
            if j > 0 {
                assert(rest[j - 1]->Hash_tick < rest[k - 1]->Hash_tick);
            } else {
                assert(then <= rest[k - 1]->Hash_tick);
            }
        }
    }
}

/// The hash of every tick on the interval is said once: a pump of a link that
/// plays says the hashes of exactly those ticks that lie on the interval, were
/// played before now, and come after the last one that was said; in the order of
/// the ticks, each as the tick ended. The last of them is remembered, and nothing
/// that has been played is left unsaid.
pub proof fn hashes_go_out_on_the_interval(
    st: Net,
    content: &Content,
    i: Input,
    queue: Seq<Scheduled>,
    hashes: Seq<u64>,
)
    requires
        plays(st, i),
        i.hashes == Some(hashes),
        st.config.hash_interval_ticks > 0,
        st.last_hash matches Some(l) ==> on_the_interval(
            l as int,
            st.config.hash_interval_ticks,
        ),
    ensures
        ({
            let p = link::pumped(st, content, i, queue);
            let every = st.config.hash_interval_ticks;
            &&& forall|k: int|
                0 <= k < p.out.len() && (#[trigger] p.out[k]) is Hash ==> {
                    let t = p.out[k]->Hash_tick;
                    &&& on_the_interval(t as int, every)
                    &&& t < i.now
                    &&& t < hashes.len()
                    &&& p.out[k]->hash == hashes[t as int]
                    &&& st.last_hash matches Some(l) ==> l < t
                }
            &&& forall|t: u32|
                #[trigger] on_the_interval(t as int, every) && t < i.now && t < hashes.len() && (
                st.last_hash matches Some(l) ==> l < t) ==> exists|k: int|
                    0 <= k < p.out.len() && #[trigger] p.out[k] == (Said::Hash {
                        tick: t,
                        hash: hashes[t as int],
                    })
            &&& forall|j: int, k: int|
                0 <= j < k < p.out.len() && (#[trigger] p.out[j]) is Hash && (
                #[trigger] p.out[k]) is Hash ==> p.out[j]->Hash_tick < p.out[k]->Hash_tick
            &&& p.link.last_hash matches Some(l) ==> on_the_interval(l as int, every)
            &&& st.last_hash matches Some(l) ==> (p.link.last_hash matches Some(m) && l <= m)
            &&& forall|t: u32|
                #[trigger] on_the_interval(t as int, every) && t < i.now && t < hashes.len() ==> (
                p.link.last_hash matches Some(m) && t <= m)
            &&& p.link.last_hash != st.last_hash ==> (p.link.last_hash matches Some(m) && m < i.now
                && m < hashes.len())
        }),
{
    let p = link::pumped(st, content, i, queue);
    let every = st.config.hash_interval_ticks;
    hearing_changes_only_the_peers_side(st, i);
    lemma_over(st, content, i, queue);
    let gate = decided(st, content, i, queue);
    assert(gate.config == st.config && gate.last_hash == st.last_hash);
    let next = link::next_due(gate);
    if st.last_hash is Some {
        lemma_step_multiple(st.last_hash->0 as int, every as int);
    } else {
        assert(0int % (every as int) == 0) by {
            vstd::arithmetic::div_mod::lemma_small_mod(0, every as nat);
        }
    }
    lemma_due(gate.last_hash, next, i.now, every, hashes);
    let r = link::hashes_due(next, i.now, every, hashes);
    let told = Net {
        last_hash: link::last_due(gate.last_hash, next, i.now, every, hashes),
        ..gate
    };
    lemma_compared_rest(told, hashes, hashes.len() as int);
    assert(p.link.last_hash == told.last_hash);
    let head = p.out.len() - r.len();
    assert forall|k: int| 0 <= k < head implies !(#[trigger] p.out[k] is Hash) by {}
    assert forall|k: int| head <= k < p.out.len() implies #[trigger] p.out[k] == r[k - head] by {}
    assert forall|t: u32|
        #[trigger] on_the_interval(t as int, every) && t < i.now && t < hashes.len() && (
        st.last_hash matches Some(l) ==> l < t) implies exists|k: int|
        0 <= k < p.out.len() && #[trigger] p.out[k] == (Said::Hash {
            tick: t,
            hash: hashes[t as int],
        }) by {
        if st.last_hash is Some {
            lemma_next_multiple(t as int, st.last_hash->0 as int, every as int);
        }
        assert(next <= t);
        let k = choose|k: int| 0 <= k < r.len() && (#[trigger] r[k])->Hash_tick == t;
        assert(p.out[k + head] == r[k]);
    }
    assert forall|t: u32|
        #[trigger] on_the_interval(t as int, every) && t < i.now && t < hashes.len() implies (
    p.link.last_hash matches Some(m) && t <= m) by {
        if st.last_hash matches Some(l) ==> l < t {
            if st.last_hash is Some {
                lemma_next_multiple(t as int, st.last_hash->0 as int, every as int);
            }
            let k = choose|k: int| 0 <= k < r.len() && (#[trigger] r[k])->Hash_tick == t;
            if k < r.len() - 1 {
                assert(r[k]->Hash_tick < r[r.len() - 1]->Hash_tick);
            }
        } else if r.len() > 0 {
            assert(r[r.len() - 1]->Hash_tick >= next);
        }
    }
    if r.len() > 0 {
        assert(r[r.len() - 1] == r.last());
    }
}

/// A pump that is told of no hashes says none, and forgets none.
pub proof fn without_hashes_none_go_out(
    st: Net,
    content: &Content,
    i: Input,
    queue: Seq<Scheduled>,
)
    requires
        i.hashes is None || !plays(st, i),
    ensures
        ({
            let p = link::pumped(st, content, i, queue);
            &&& forall|k: int| 0 <= k < p.out.len() ==> !(#[trigger] p.out[k] is Hash)
            &&& p.link.last_hash == st.last_hash
            &&& p.link.peer_hashes == informed(st, i).peer_hashes
            &&& p.link.agreed == st.agreed
        }),
{
    hearing_changes_only_the_peers_side(st, i);
    if plays(st, i) {
        lemma_over(st, content, i, queue);
    }
}

/// How many of the peer's hashes of ticks before `t` agree with ours.
pub open spec fn agreeing(theirs: Map<u32, u64>, hashes: Seq<u64>, t: int) -> nat
    decreases t,
{
    if t <= 0 {
        0
    } else {
        agreeing(theirs, hashes, t - 1) + if t - 1 <= u32::MAX && theirs.contains_key((t - 1) as u32)
            && theirs[(t - 1) as u32] == hashes[t - 1] {
            1nat
        } else {
            0nat
        }
    }
}

/// The peer's hash of every tick that was played here is compared and done with;
/// one of a tick that was not stays. Those that agree are counted, and the first
/// that does not is what the link stops for, with both hashes.
pub proof fn played_hashes_are_compared(st: Net, hashes: Seq<u64>, t: int)
    requires
        0 <= t <= hashes.len(),
        st.agreed + t <= u32::MAX,
    ensures
        ({
            let r = link::compared(st, hashes, t);
            &&& forall|k: u32| #[trigger]
                r.peer_hashes.contains_key(k) <==> st.peer_hashes.contains_key(k) && k >= t
            &&& forall|k: u32| #[trigger]
                r.peer_hashes.contains_key(k) ==> r.peer_hashes[k] == st.peer_hashes[k]
            &&& r.agreed == st.agreed + agreeing(st.peer_hashes, hashes, t)
            &&& agreeing(st.peer_hashes, hashes, t) <= t
            &&& forall|k: u32|
                #![trigger st.peer_hashes.contains_key(k)]
                st.failure is None && k < t && st.peer_hashes.contains_key(k) && st.peer_hashes[k]
                    != hashes[k as int] && (forall|j: u32|
                    j < k && #[trigger] st.peer_hashes.contains_key(j) ==> st.peer_hashes[j]
                        == hashes[j as int]) ==> r.failure == Some(
                    Failed::Desync { tick: k, ours: hashes[k as int], theirs: st.peer_hashes[k] },
                )
            &&& (forall|j: u32|
                j < t && #[trigger] st.peer_hashes.contains_key(j) ==> st.peer_hashes[j]
                    == hashes[j as int]) ==> r.failure == st.failure
        }),
    decreases t,
{
    if t > 0 {
        played_hashes_are_compared(st, hashes, t - 1);
        let before = link::compared(st, hashes, t - 1);
        let r = link::compared(st, hashes, t);
        let m = (t - 1) as u32;
        assert forall|k: u32|
            #![trigger st.peer_hashes.contains_key(k)]
            st.failure is None && k < t && st.peer_hashes.contains_key(k) && st.peer_hashes[k]
                != hashes[k as int] && (forall|j: u32|
                j < k && #[trigger] st.peer_hashes.contains_key(j) ==> st.peer_hashes[j]
                    == hashes[j as int]) implies r.failure == Some(
            Failed::Desync { tick: k, ours: hashes[k as int], theirs: st.peer_hashes[k] },
        ) by {
            if k == m {
                assert(before.failure == st.failure);
            }
        }
    }
}

// ---- names on the wire -------------------------------------------------------------------

/// On the wire a thing goes by its place in the registry, and whoever has it in
/// that place understands it: a peer reads a name as what its own registry holds
/// there.
pub proof fn names_on_the_wire_are_places(ids: Seq<Entity>, peer: Seq<Entity>, e: Entity)
    requires
        ids.len() <= u64::MAX,
        ids.contains(e),
        peer.len() == ids.len(),
    ensures
        wire::wire_name(ids, e).bits < ids.len(),
        ids[wire::wire_name(ids, e).bits as int] == e,
        wire::meant(peer, wire::wire_name(ids, e)) == Some(
            peer[wire::wire_name(ids, e).bits as int],
        ),
{
    crate::sim::registry::lemma_known(ids, e);
}

} // verus!
