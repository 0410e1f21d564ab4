//! The lockstep link: what the peer has said, what we have said, and whether
//! the next tick may run.

use vstd::prelude::*;

use crate::float::F32;
use crate::net::config::NetConfig;
use crate::net::laws;
use crate::net::ticks::TickMap;
use crate::net::wire;
use crate::net::wire::{resolve_order, wire_order, Frame, Said, WireCommand};
use crate::net::PROTOCOL_VERSION;
use crate::sim::ai;
use crate::sim::content::{Content, ContentFingerprint};
use crate::sim::orders;
use crate::sim::orders::{Claim, CommandTick, OrderQueue, Scheduled, SignedOrder};
use crate::sim::registry::SimIds;
use crate::sim::replay::TickGate;
use crate::sim::spatial::Faction;
use crate::sim::world::Entity;
use crate::text;

verus! {

/// Why a link stopped playing.
#[derive(Debug, Clone)]
pub enum LinkFailure {
    /// The peers do not agree on the protocol, the seed, the content, or on who
    /// plays which side.
    Handshake(String),
    /// The state hashes differ.
    Desync { tick: u32, ours: u64, theirs: u64 },
    /// The connection died, or said something this build cannot read.
    Transport(String),
    /// A turn did not arrive in time.
    Stalled { tick: u32, waited_secs: F32 },
}

/// A failure, as a mathematical value.
pub enum Failed {
    Handshake(Seq<char>),
    Desync { tick: u32, ours: u64, theirs: u64 },
    Transport(Seq<char>),
    Stalled { tick: u32, waited_secs: F32 },
}

impl View for LinkFailure {
    type V = Failed;

    open spec fn view(&self) -> Failed {
        match *self {
            LinkFailure::Handshake(m) => Failed::Handshake(m@),
            LinkFailure::Desync { tick, ours, theirs } => Failed::Desync { tick, ours, theirs },
            LinkFailure::Transport(m) => Failed::Transport(m@),
            LinkFailure::Stalled { tick, waited_secs } => Failed::Stalled { tick, waited_secs },
        }
    }
}

/// The lockstep link. It decides; the bytes are carried elsewhere.
#[derive(Debug)]
pub struct NetLink {
    config: NetConfig,
    /// Which side this process commands.
    me: Faction,
    /// Which side the peer commands, once it has said so.
    peer: Option<Faction>,
    greeted: bool,
    /// Turns the peer has sent, by the tick they apply on.
    peer_turns: TickMap<Vec<WireCommand>>,
    /// Our own turns, held back the same way: both sides push the merged turn in
    /// one order.
    my_turns: TickMap<Vec<SignedOrder>>,
    /// The last tick we sent a turn for.
    last_sent_turn: Option<u32>,
    /// Local commands taken off the queue and not yet sent.
    pending_local: Vec<SignedOrder>,
    /// Peer hashes not yet compared.
    peer_hashes: TickMap<u64>,
    /// The last tick we sent a hash for.
    last_hash_sent: Option<u32>,
    /// Ticks whose hashes matched.
    hashes_agreed: u32,
    failure: Option<LinkFailure>,
    /// Seconds spent waiting for the turn that is missing.
    waiting_secs: F32,
}

/// The state of a link, as a mathematical value.
#[verifier::ext_equal]
pub struct Net {
    pub config: NetConfig,
    pub me: Faction,
    pub peer: Option<Faction>,
    pub greeted: bool,
    pub peer_turns: Map<u32, Seq<Claim>>,
    pub my_turns: Map<u32, Seq<Claim>>,
    pub last_sent: Option<u32>,
    pub pending: Seq<Claim>,
    pub peer_hashes: Map<u32, u64>,
    pub last_hash: Option<u32>,
    pub agreed: u32,
    pub failure: Option<Failed>,
    pub waiting: F32,
}

spec fn peer_view(m: Map<u32, Vec<WireCommand>>) -> Map<u32, Seq<Claim>> {
    m.map_values(|v: Vec<WireCommand>| wire::wires(v@))
}

spec fn my_view(m: Map<u32, Vec<SignedOrder>>) -> Map<u32, Seq<Claim>> {
    m.map_values(|v: Vec<SignedOrder>| orders::claims(v@))
}

spec fn failed(f: Option<LinkFailure>) -> Option<Failed> {
    match f {
        Some(f) => Some(f@),
        None => None,
    }
}

impl View for NetLink {
    type V = Net;

    closed spec fn view(&self) -> Net {
        Net {
            config: self.config,
            me: self.me,
            peer: self.peer,
            greeted: self.greeted,
            peer_turns: peer_view(self.peer_turns@),
            my_turns: my_view(self.my_turns@),
            last_sent: self.last_sent_turn,
            pending: orders::claims(self.pending_local@),
            peer_hashes: self.peer_hashes@,
            last_hash: self.last_hash_sent,
            agreed: self.hashes_agreed,
            failure: failed(self.failure),
            waiting: self.waiting_secs,
        }
    }
}

// ---- the rules --------------------------------------------------------------

/// A link that has not said anything yet.
pub open spec fn fresh(me: Faction, config: NetConfig) -> Net {
    Net {
        config,
        me,
        peer: None,
        greeted: false,
        peer_turns: Map::empty(),
        my_turns: Map::empty(),
        last_sent: None,
        pending: Seq::empty(),
        peer_hashes: Map::empty(),
        last_hash: None,
        agreed: 0,
        failure: None,
        waiting: F32 { bits: 0 },
    }
}

/// The first failure is the one that counts.
pub open spec fn with_failure(st: Net, f: Failed) -> Net {
    if st.failure is Some {
        st
    } else {
        Net { failure: Some(f), ..st }
    }
}

/// A fingerprint as people read it.
pub open spec fn stamp_shown(stamp: u64, label: Seq<char>) -> Seq<char> {
    if stamp != 0 {
        text::hex(stamp as nat, 16) + " ("@ + label + ")"@
    } else {
        "unknown"@
    }
}

/// Why a peer's hello is refused.
pub open spec fn hello_problem(
    me: Faction,
    protocol: u32,
    faction: Faction,
    seed: u64,
    stamp: u64,
    label: Seq<char>,
    our_seed: u64,
    our_stamp: u64,
    our_label: Seq<char>,
) -> Option<Seq<char>> {
    if protocol != PROTOCOL_VERSION {
        Some(
            "peer speaks protocol "@ + text::dec(protocol as nat) + ", this build speaks "@
                + text::dec(PROTOCOL_VERSION as nat),
        )
    } else if faction == me {
        Some("both peers claim to command "@ + ai::letter(faction))
    } else if seed != our_seed {
        Some(
            "peer's match seed is "@ + text::dec(seed as nat) + ", ours is "@ + text::dec(
                our_seed as nat,
            ),
        )
    } else if stamp != our_stamp {
        Some(
            "peer is running different content — theirs ["@ + stamp_shown(stamp, label)
                + "], ours ["@ + stamp_shown(our_stamp, our_label) + "]"@,
        )
    } else {
        None
    }
}

/// The link after one frame was heard.
pub open spec fn heard(st: Net, f: Said, our_seed: u64, our_stamp: u64, our_label: Seq<char>) -> Net {
    match f {
        Said::Hello { protocol, faction, seed, stamp, label } => match hello_problem(
            st.me,
            protocol,
            faction,
            seed,
            stamp,
            label,
            our_seed,
            our_stamp,
            our_label,
        ) {
            Some(m) => with_failure(st, Failed::Handshake(m)),
            None => Net { peer: Some(faction), ..st },
        },
        Said::Turn { tick, commands } => Net {
            peer_turns: st.peer_turns.insert(tick, commands),
            ..st
        },
        Said::Hash { tick, hash } => Net { peer_hashes: st.peer_hashes.insert(tick, hash), ..st },
    }
}

/// The link after the first `k` frames were heard.
pub open spec fn all_heard(
    st: Net,
    all: Seq<Said>,
    our_seed: u64,
    our_stamp: u64,
    our_label: Seq<char>,
    k: int,
) -> Net
    decreases k,
{
    if k <= 0 {
        st
    } else {
        heard(
            all_heard(st, all, our_seed, our_stamp, our_label, k - 1),
            all[k - 1],
            our_seed,
            our_stamp,
            our_label,
        )
    }
}

/// What arrived: frames, or the reason there are none.
pub open spec fn received(
    st: Net,
    arrived: Result<Seq<Said>, Seq<char>>,
    closed: bool,
    our_seed: u64,
    our_stamp: u64,
    our_label: Seq<char>,
) -> Net {
    let read = match arrived {
        Ok(all) => all_heard(st, all, our_seed, our_stamp, our_label, all.len() as int),
        Err(m) => with_failure(st, Failed::Transport(m)),
    };
    if closed {
        with_failure(read, Failed::Transport("the peer closed the connection"@))
    } else {
        read
    }
}

/// The claims that are orders.
pub open spec fn orders_only(all: Seq<Claim>) -> Seq<Claim>
    decreases all.len(),
{
    if all.len() == 0 {
        Seq::empty()
    } else if all.last().asked is Signature {
        orders_only(all.drop_last())
    } else {
        orders_only(all.drop_last()).push(all.last())
    }
}

/// A claim as it crosses the wire.
pub open spec fn wired(ids: Seq<Entity>, c: Claim) -> Claim {
    Claim { attribution: c.attribution, asked: wire::for_the_wire(ids, c.asked) }
}

/// Is the turn for `turn` still to be sent?
pub open spec fn unsent(last: Option<u32>, turn: u32) -> bool {
    last matches Some(l) ==> turn > l
}

/// The link after its turn for `turn` was sent.
pub open spec fn turn_sent(st: Net, turn: u32) -> Net {
    Net {
        my_turns: st.my_turns.insert(turn, orders_only(st.pending)),
        pending: Seq::empty(),
        last_sent: Some(turn),
        ..st
    }
}

/// The turn that is sent.
pub open spec fn turn_frame(st: Net, ids: Seq<Entity>, turn: u32) -> Said {
    Said::Turn {
        tick: turn,
        commands: orders_only(st.pending).map_values(|c: Claim| wired(ids, c)),
    }
}

/// The peer's commands that resolve here, among the first `k`.
pub open spec fn understood(ids: Seq<Entity>, content: &Content, all: Seq<Claim>, k: int) -> Seq<
    Claim,
>
    decreases k,
{
    if k <= 0 {
        Seq::empty()
    } else {
        let before = understood(ids, content, all, k - 1);
        let c = all[k - 1];
        if wire::strange(ids, content, c.asked) is None {
            before.push(
                Claim { attribution: c.attribution, asked: wire::resolved(ids, c.asked) },
            )
        } else {
            before
        }
    }
}

/// The link after the first `k` of the peer's commands were resolved.
pub open spec fn puzzled(st: Net, ids: Seq<Entity>, content: &Content, all: Seq<Claim>, k: int)
    -> Net
    decreases k,
{
    if k <= 0 {
        st
    } else {
        let before = puzzled(st, ids, content, all, k - 1);
        match wire::strange(ids, content, all[k - 1].asked) {
            Some(m) => with_failure(
                before,
                Failed::Transport("peer sent a command this build cannot resolve: "@ + m),
            ),
            None => before,
        }
    }
}

/// Claims as commands for tick `now`.
pub open spec fn for_tick(now: u32, all: Seq<Claim>) -> Seq<Scheduled> {
    all.map_values(|c: Claim| Scheduled { when: CommandTick::At(now), claim: c })
}

/// This tick's commands in the order that both peers push them: `A`'s, then
/// `B`'s.
pub open spec fn merged(me: Faction, mine: Seq<Claim>, theirs: Seq<Claim>) -> Seq<Claim> {
    match me {
        Faction::A => mine + theirs,
        Faction::B => theirs + mine,
    }
}

/// Our own commands for tick `now`.
pub open spec fn mine_at(st: Net, now: u32) -> Seq<Claim> {
    if st.my_turns.contains_key(now) {
        st.my_turns[now]
    } else {
        Seq::empty()
    }
}

/// The commands that tick `now` is handed.
pub open spec fn handed(st: Net, ids: Seq<Entity>, content: &Content, now: u32) -> Seq<Scheduled> {
    if st.peer_turns.contains_key(now) {
        let theirs = st.peer_turns[now];
        for_tick(
            now,
            merged(st.me, mine_at(st, now), understood(ids, content, theirs, theirs.len() as int)),
        )
    } else {
        Seq::empty()
    }
}

/// The link after tick `now` was handed its commands.
pub open spec fn handed_over(st: Net, ids: Seq<Entity>, content: &Content, now: u32) -> Net {
    if st.peer_turns.contains_key(now) {
        let theirs = st.peer_turns[now];
        puzzled(
            Net { my_turns: st.my_turns.remove(now), ..st },
            ids,
            content,
            theirs,
            theirs.len() as int,
        )
    } else {
        st
    }
}

/// May tick `now` run? Before the first turn that can exist there is nothing to
/// wait for.
pub open spec fn ready(st: Net, now: u32) -> bool {
    now < st.config.turn_delay_ticks || st.peer_turns.contains_key(now)
}

/// Has the wait been too long?
pub open spec fn too_long(st: Net, now: u32, waited: F32) -> bool {
    !ready(st, now) && st.config.stall_timeout_secs.less(waited)
}

/// The link once it is decided whether the tick may run.
pub open spec fn gated(st: Net, now: u32, waited: F32) -> Net {
    if ready(st, now) {
        Net { waiting: F32 { bits: 0 }, ..st }
    } else {
        let later = Net { waiting: waited, ..st };
        if too_long(st, now, waited) {
            with_failure(later, Failed::Stalled { tick: now, waited_secs: waited })
        } else {
            later
        }
    }
}

/// `a + b`, or the largest number there is.
pub open spec fn on(a: u32, b: u32) -> u32 {
    if a + b <= u32::MAX {
        (a + b) as u32
    } else {
        u32::MAX
    }
}

/// The hashes that are sent, from tick `next` on: one per interval, of ticks
/// before `now` that were played.
pub open spec fn hashes_due(next: u32, now: u32, every: u32, hashes: Seq<u64>) -> Seq<Said>
    decreases u32::MAX - next,
{
    if every > 0 && next < now && next < hashes.len() {
        seq![Said::Hash { tick: next, hash: hashes[next as int] }] + hashes_due(
            on(next, every),
            now,
            every,
            hashes,
        )
    } else {
        Seq::empty()
    }
}

/// The last tick whose hash is sent.
pub open spec fn last_due(
    last: Option<u32>,
    next: u32,
    now: u32,
    every: u32,
    hashes: Seq<u64>,
) -> Option<u32>
    decreases u32::MAX - next,
{
    if every > 0 && next < now && next < hashes.len() {
        last_due(Some(next), on(next, every), now, every, hashes)
    } else {
        last
    }
}

/// The first tick whose hash is not yet sent.
pub open spec fn next_due(st: Net) -> u32 {
    match st.last_hash {
        Some(l) => on(l, st.config.hash_interval_ticks),
        None => 0,
    }
}

/// The link after the peer's hashes of the ticks before `t` were compared with
/// ours: each that is compared is dropped.
pub open spec fn compared(st: Net, hashes: Seq<u64>, t: int) -> Net
    decreases t,
{
    if t <= 0 {
        st
    } else {
        let before = compared(st, hashes, t - 1);
        let k = (t - 1) as u32;
        if t - 1 <= u32::MAX && st.peer_hashes.contains_key(k) {
            let (ours, theirs) = (hashes[t - 1], st.peer_hashes[k]);
            let dropped = Net { peer_hashes: before.peer_hashes.remove(k), ..before };
            if ours == theirs {
                Net { agreed: on(before.agreed, 1), ..dropped }
            } else {
                with_failure(dropped, Failed::Desync { tick: k, ours, theirs })
            }
        } else {
            before
        }
    }
}

/// Does a peer hash of a tick before `t` differ from ours?
pub open spec fn differs(st: Net, hashes: Seq<u64>, t: int) -> bool {
    exists|k: u32|
        k < t && #[trigger] st.peer_hashes.contains_key(k) && st.peer_hashes[k] != hashes[k as int]
}

/// Everything a pump reads.
pub struct Input {
    pub now: u32,
    pub seed: u64,
    pub stamp: u64,
    pub label: Seq<char>,
    pub ids: Seq<Entity>,
    pub hashes: Option<Seq<u64>>,
    pub arrived: Result<Seq<Said>, Seq<char>>,
    pub closed: bool,
    pub waited: F32,
}

/// Everything a pump makes.
pub struct Pumped {
    pub link: Net,
    pub queue: Seq<Scheduled>,
    pub open: bool,
    pub out: Seq<Said>,
}

/// The hello, if it was not said yet.
pub open spec fn greeting(st: Net, seed: u64, stamp: u64, label: Seq<char>) -> Seq<Said> {
    if st.greeted {
        Seq::empty()
    } else {
        seq![Said::Hello { protocol: PROTOCOL_VERSION, faction: st.me, seed, stamp, label }]
    }
}

/// The second half of a pump, for a link that plays.
pub open spec fn playing(
    st: Net,
    content: &Content,
    i: Input,
    queue: Seq<Scheduled>,
    out: Seq<Said>,
) -> Pumped {
    let taken = Net { pending: st.pending + orders::unscheduled(queue), ..st };
    let turn = (i.now + st.config.turn_delay_ticks) as u32;
    let (sent, out) = if unsent(st.last_sent, turn) {
        (turn_sent(taken, turn), out.push(turn_frame(taken, i.ids, turn)))
    } else {
        (taken, out)
    };
    let queue = orders::scheduled(queue) + handed(sent, i.ids, content, i.now);
    let over = handed_over(sent, i.ids, content, i.now);
    let open = ready(over, i.now) && over.failure is None;
    let gate = gated(over, i.now, i.waited);
    match i.hashes {
        Some(hashes) => {
            let next = next_due(gate);
            let every = gate.config.hash_interval_ticks;
            let told = Net {
                last_hash: last_due(gate.last_hash, next, i.now, every, hashes),
                ..gate
            };
            Pumped {
                link: compared(told, hashes, hashes.len() as int),
                queue,
                open: open && !differs(told, hashes, hashes.len() as int),
                out: out + hashes_due(next, i.now, every, hashes),
            }
        },
        None => Pumped { link: gate, queue, open, out },
    }
}

/// One pump of the link.
pub open spec fn pumped(st: Net, content: &Content, i: Input, queue: Seq<Scheduled>) -> Pumped {
    let out = greeting(st, i.seed, i.stamp, i.label);
    let read = received(
        Net { greeted: true, ..st },
        i.arrived,
        i.closed,
        i.seed,
        i.stamp,
        i.label,
    );
    if read.failure is Some || read.peer is None {
        Pumped { link: read, queue, open: false, out }
    } else {
        playing(read, content, i, queue, out)
    }
}

// ---- the link ---------------------------------------------------------------

fn plus(a: u32, b: u32) -> (r: u32)
    ensures
        r == on(a, b),
{
    if b <= u32::MAX - a {
        a + b
    } else {
        u32::MAX
    }
}

impl NetLink {
    pub closed spec fn wf(&self) -> bool {
        self.config.problem() is None
    }

    /// A link for this side. A configuration that cannot work is refused.
    pub fn new(me: Faction, config: NetConfig) -> (r: Result<Self, String>)
        ensures
            match r {
                Ok(link) => config.problem() is None && link.wf() && link@ == fresh(me, config),
                Err(m) => config.problem() == Some(m@),
            },
    {
        match config.validate() {
            Ok(_) => {},
            Err(m) => {
                return Err(m);
            },
        }
        let link = NetLink {
            config,
            me,
            peer: None,
            greeted: false,
            peer_turns: TickMap::new(),
            my_turns: TickMap::new(),
            last_sent_turn: None,
            pending_local: Vec::new(),
            peer_hashes: TickMap::new(),
            last_hash_sent: None,
            hashes_agreed: 0,
            failure: None,
            waiting_secs: F32 { bits: 0 },
        };
        assert(link@ =~= fresh(me, config));
        Ok(link)
    }

    pub fn config(&self) -> (r: &NetConfig)
        ensures
            *r == self@.config,
    {
        &self.config
    }

    pub fn me(&self) -> (r: Faction)
        ensures
            r == self@.me,
    {
        self.me
    }

    pub fn peer(&self) -> (r: Option<Faction>)
        ensures
            r == self@.peer,
    {
        self.peer
    }

    /// The handshake has completed.
    pub fn is_ready(&self) -> (r: bool)
        ensures
            r == (self@.peer is Some && self@.failure is None),
    {
        self.peer.is_some() && self.failure.is_none()
    }

    pub fn failure(&self) -> (r: Option<&LinkFailure>)
        ensures
            r is Some == self@.failure is Some,
            r matches Some(f) ==> self@.failure == Some(f@),
    {
        self.failure.as_ref()
    }

    /// Ticks whose hashes both peers agreed on.
    pub fn hashes_agreed(&self) -> (r: u32)
        ensures
            r == self@.agreed,
    {
        self.hashes_agreed
    }

    /// Seconds spent waiting for the turn that is missing.
    pub fn waiting_secs(&self) -> (r: F32)
        ensures
            r == self@.waiting,
    {
        self.waiting_secs
    }

    /// Have we got the peer's commands for `tick`?
    pub fn has_turn(&self, tick: u32) -> (r: bool)
        requires
            self.wf(),
        ensures
            r == self@.peer_turns.contains_key(tick),
    {
        self.peer_turns.contains(tick)
    }

    /// Stop the link, unless it has stopped already.
    pub fn fail(&mut self, failure: LinkFailure)
        requires
            old(self).wf(),
        ensures
            final(self).wf(),
            final(self)@ == with_failure(old(self)@, failure@),
    {
        if self.failure.is_none() {
            self.failure = Some(failure);
        }
        assert(self@ =~= with_failure(old(self)@, failure@));
    }

    /// What became of something handed to the connection. If it could not be
    /// sent, the link stops and no tick may run.
    pub fn handed_out(&mut self, outcome: Result<(), String>, gate: &mut TickGate)
        requires
            old(self).wf(),
        ensures
            final(self).wf(),
            match outcome {
                Ok(_) => final(self)@ == old(self)@ && final(gate).open == old(gate).open,
                Err(e) => final(self)@ == with_failure(old(self)@, Failed::Transport(e@))
                    && !final(gate).open,
            },
            old(self)@.failure is Some ==> final(self)@.failure == old(self)@.failure,
            (old(self)@.failure is Some ==> !old(gate).open) ==> (final(self)@.failure is Some
                ==> !final(gate).open),
    {
        match outcome {
            Ok(_) => {},
            Err(e) => {
                self.fail(LinkFailure::Transport(e));
                gate.close();
            },
        }
    }

    /// Say hello once.
    fn greet(&mut self, seed: u64, content: &ContentFingerprint, out: &mut Vec<Frame>)
        requires
            old(self).wf(),
        ensures
            final(self).wf(),
            final(self)@ == (Net { greeted: true, ..old(self)@ }),
            wire::said(final(out)@) == wire::said(old(out)@) + greeting(
                old(self)@,
                seed,
                content.stamp(),
                content.label(),
            ),
    {
        let ghost before = out@;
        if !self.greeted {
            let hello = Frame::Hello {
                protocol: PROTOCOL_VERSION,
                faction: self.me,
                seed,
                content: content.copied(),
            };
            out.push(hello);
        }
        self.greeted = true;
        assert(self@ =~= Net { greeted: true, ..old(self)@ });
        assert(wire::said(out@) =~= wire::said(before) + greeting(
            old(self)@,
            seed,
            content.stamp(),
            content.label(),
        ));
    }

    /// Check the peer's hello against ours.
    fn accept_hello(
        &mut self,
        protocol: u32,
        faction: Faction,
        seed: u64,
        content: &ContentFingerprint,
        our_seed: u64,
        mine: &ContentFingerprint,
    )
        requires
            old(self).wf(),
        ensures
            final(self).wf(),
            final(self)@ == heard(
                old(self)@,
                (Said::Hello {
                    protocol,
                    faction,
                    seed,
                    stamp: content.stamp(),
                    label: content.label(),
                }),
                our_seed,
                mine.stamp(),
                mine.label(),
            ),
    {
        let ghost hello = Said::Hello {
            protocol,
            faction,
            seed,
            stamp: content.stamp(),
            label: content.label(),
        };
        let ghost want = heard(self@, hello, our_seed, mine.stamp(), mine.label());
        let ghost problem = hello_problem(
            self@.me,
            protocol,
            faction,
            seed,
            content.stamp(),
            content.label(),
            our_seed,
            mine.stamp(),
            mine.label(),
        );
        if protocol != PROTOCOL_VERSION {
            let mut m: String = "peer speaks protocol ".to_owned();
            text::push_dec(&mut m, protocol as u64);
            m.append(", this build speaks ");
            text::push_dec(&mut m, PROTOCOL_VERSION as u64);
            assert(Some(m@) == problem);
            self.fail(LinkFailure::Handshake(m));
            return ;
        }
        if faction == self.me {
            let mut m: String = "both peers claim to command ".to_owned();
            m.append(ai::side_letter(faction));
            assert(Some(m@) == problem);
            self.fail(LinkFailure::Handshake(m));
            return ;
        }
        if seed != our_seed {
            let mut m: String = "peer's match seed is ".to_owned();
            text::push_dec(&mut m, seed);
            m.append(", ours is ");
            text::push_dec(&mut m, our_seed);
            assert(Some(m@) == problem);
            self.fail(LinkFailure::Handshake(m));
            return ;
        }
        if content.hash() != mine.hash() {
            let m: String = text::cat5(
                "peer is running different content — theirs [",
                content.describe().as_str(),
                "], ours [",
                mine.describe().as_str(),
                "]",
            );
            assert(Some(m@) == problem);
            self.fail(LinkFailure::Handshake(m));
            return ;
        }
        self.peer = Some(faction);
        assert(self@ =~= want);
    }

    /// Take in one frame.
    fn hear(&mut self, frame: Frame, our_seed: u64, mine: &ContentFingerprint)
        requires
            old(self).wf(),
        ensures
            final(self).wf(),
            final(self)@ == heard(old(self)@, frame@, our_seed, mine.stamp(), mine.label()),
    {
        let ghost want = heard(self@, frame@, our_seed, mine.stamp(), mine.label());
        match frame {
            Frame::Hello { protocol, faction, seed, content } => {
                self.accept_hello(protocol, faction, seed, &content, our_seed, mine);
            },
            Frame::Turn { tick, commands } => {
                let ghost m = self.peer_turns@;
                self.peer_turns.insert(tick, commands);
                assert(peer_view(m.insert(tick, commands)) =~= peer_view(m).insert(
                    tick,
                    wire::wires(commands@),
                ));
                assert(self@ =~= want);
            },
            Frame::Hash { tick, hash } => {
                self.peer_hashes.insert(tick, hash);
                assert(self@ =~= want);
            },
        }
    }

    /// Take in what arrived.
    fn receive(
        &mut self,
        arrived: Result<Vec<Frame>, String>,
        closed: bool,
        our_seed: u64,
        mine: &ContentFingerprint,
    )
        requires
            old(self).wf(),
        ensures
            final(self).wf(),
            final(self)@ == received(
                old(self)@,
                arrival(arrived),
                closed,
                our_seed,
                mine.stamp(),
                mine.label(),
            ),
    {
        let ghost start = self@;
        match arrived {
            Ok(frames) => {
                let ghost all = frames@;
                let ghost seen = wire::said(all);
                let mut frames = frames;
                let ghost mut k: int = 0;
                while frames.len() > 0
                    invariant
                        self.wf(),
                        0 <= k <= all.len(),
                        seen == wire::said(all),
                        frames@ == all.skip(k),
                        self@ == all_heard(start, seen, our_seed, mine.stamp(), mine.label(), k),
                    decreases frames@.len(),
                {
                    assert(all.skip(k)[0] == all[k]);
                    let frame = frames.remove(0);
                    assert(frames@ =~= all.skip(k + 1));
                    assert(seen[k] == frame@);
                    self.hear(frame, our_seed, mine);
                    proof {
                        k = k + 1;
                    }
                }
                assert(k == all.len());
            },
            Err(e) => {
                self.fail(LinkFailure::Transport(e));
            },
        }
        if closed && self.failure.is_none() {
            self.fail(LinkFailure::Transport("the peer closed the connection".to_owned()));
        }
    }

    /// Take the local commands off the queue.
    fn collect(&mut self, queue: &mut OrderQueue)
        requires
            old(self).wf(),
        ensures
            final(self).wf(),
            final(self)@ == (Net {
                pending: old(self)@.pending + orders::unscheduled(old(queue)@),
                ..old(self)@
            }),
            final(queue)@ == orders::scheduled(old(queue)@),
    {
        let ghost had = self.pending_local@;
        let mut more = queue.take_unscheduled();
        let ghost all = more@;
        let ghost mut k: int = 0;
        assert(orders::claims(had) + orders::claims(all).take(0) =~= orders::claims(had));
        while more.len() > 0
            invariant
                0 <= k <= all.len(),
                more@ == all.skip(k),
                self.wf(),
                orders::claims(self.pending_local@) == orders::claims(had) + orders::claims(
                    all,
                ).take(k),
                self@ == (Net {
                    pending: orders::claims(self.pending_local@),
                    ..old(self)@
                }),
            decreases more@.len(),
        {
            assert(all.skip(k)[0] == all[k]);
            let signed = more.remove(0);
            assert(more@ =~= all.skip(k + 1));
            let ghost before = self.pending_local@;
            self.pending_local.push(signed);
            proof {
                assert(orders::claims(self.pending_local@) =~= orders::claims(before).push(
                    all[k]@,
                ));
                assert(orders::claims(all).take(k + 1) =~= orders::claims(all).take(k).push(
                    all[k]@,
                ));
                assert(orders::claims(self.pending_local@) =~= orders::claims(had) + orders::claims(
                    all,
                ).take(k + 1));
                k = k + 1;
            }
        }
        proof {
            assert(k == all.len());
            assert(orders::claims(all).take(k) =~= orders::claims(all));
        }
    }

    /// Send our turn for `turn`.
    fn send_turn(&mut self, turn: u32, ids: &SimIds, out: &mut Vec<Frame>)
        requires
            old(self).wf(),
        ensures
            final(self).wf(),
            final(self)@ == turn_sent(old(self)@, turn),
            wire::said(final(out)@) == wire::said(old(out)@).push(
                turn_frame(old(self)@, ids@, turn),
            ),
    {
        let ghost start = self@;
        let mut mine: Vec<SignedOrder> = Vec::new();
        std::mem::swap(&mut mine, &mut self.pending_local);
        let ghost all = mine@;
        let ghost seen = orders::claims(all);
        let mut commands: Vec<WireCommand> = Vec::new();
        let mut held: Vec<SignedOrder> = Vec::new();
        let ghost mut k: int = 0;
        let ghost f = |c: Claim| wired(ids@, c);
        proof {
            assert(seen.take(0) =~= Seq::empty());
            assert(wire::wires(commands@) =~= orders_only(seen.take(0)).map_values(f));
            assert(orders::claims(held@) =~= orders_only(seen.take(0)));
        }
        while mine.len() > 0
            invariant
                0 <= k <= all.len(),
                mine@ == all.skip(k),
                seen == orders::claims(all),
                f == (|c: Claim| wired(ids@, c)),
                orders::claims(held@) == orders_only(seen.take(k)),
                wire::wires(commands@) == orders_only(seen.take(k)).map_values(f),
            decreases mine@.len(),
        {
            assert(all.skip(k)[0] == all[k]);
            let signed = mine.remove(0);
            proof {
                assert(mine@ =~= all.skip(k + 1));
                assert(seen.take(k + 1).drop_last() =~= seen.take(k));
                assert(seen.take(k + 1).last() == signed@);
            }
            let ghost (h0, c0) = (held@, commands@);
            match wire_order(ids, signed.order()) {
                Some(order) => {
                    let command = WireCommand { attribution: signed.attribution(), order };
                    commands.push(command);
                    held.push(signed);
                    proof {
                        assert(command@ == f(signed@));
                        assert(wire::wires(commands@) =~= wire::wires(c0).push(f(signed@)));
                        assert(orders::claims(held@) =~= orders::claims(h0).push(signed@));
                        assert(orders_only(seen.take(k + 1)).map_values(f) =~= orders_only(
                            seen.take(k),
                        ).map_values(f).push(f(signed@)));
                    }
                },
                None => {},
            }
            proof {
                k = k + 1;
            }
        }
        proof {
            assert(k == all.len());
            assert(seen.take(k) =~= seen);
        }
        let ghost before = out@;
        let frame = Frame::Turn { tick: turn, commands };
        assert(frame@ == turn_frame(start, ids@, turn));
        out.push(frame);
        assert(wire::said(out@) =~= wire::said(before).push(frame@));
        let ghost m = self.my_turns@;
        self.my_turns.insert(turn, held);
        self.last_sent_turn = Some(turn);
        proof {
            assert(my_view(m.insert(turn, held)) =~= my_view(m).insert(
                turn,
                orders::claims(held@),
            ));
            assert(self@.pending =~= Seq::empty());
            assert(self@ =~= turn_sent(start, turn));
        }
    }

    /// The peer's commands for tick `now`, as far as they resolve here.
    fn their_orders(&mut self, now: u32, ids: &SimIds, content: &Content) -> (r: Vec<SignedOrder>)
        requires
            old(self).wf(),
            old(self)@.peer_turns.contains_key(now),
        ensures
            final(self).wf(),
            ({
                let theirs = old(self)@.peer_turns[now];
                let n = theirs.len() as int;
                &&& final(self)@ == puzzled(old(self)@, ids@, content, theirs, n)
                &&& orders::claims(r@) == understood(ids@, content, theirs, n)
            }),
    {
        let ghost start = self@;
        let ghost theirs = self@.peer_turns[now];
        let mut out: Vec<SignedOrder> = Vec::new();
        let mut trouble: Option<LinkFailure> = None;
        assert(orders::claims(out@) =~= Seq::empty());
        match self.peer_turns.get(now) {
            Some(list) => {
                assert(wire::wires(list@) == theirs);
                let mut k: usize = 0;
                while k < list.len()
                    invariant
                        k <= list@.len(),
                        self.wf(),
                        self@ == start,
                        wire::wires(list@) == theirs,
                        orders::claims(out@) == understood(ids@, content, theirs, k as int),
                        match trouble {
                            Some(f) => puzzled(start, ids@, content, theirs, k as int)
                                == with_failure(start, f@),
                            None => puzzled(start, ids@, content, theirs, k as int) == start,
                        },
                    decreases list@.len() - k,
                {
                    let c = &list[k];
                    assert(theirs[k as int] == c@);
                    match resolve_order(ids, content, &c.order) {
                        Ok(order) => {
                            let ghost before = out@;
                            let signed = SignedOrder::from_parts(c.attribution, order);
                            out.push(signed);
                            assert(orders::claims(out@) =~= orders::claims(before).push(signed@));
                        },
                        Err(e) => {
                            if trouble.is_none() {
                                let mut m: String =
                                    "peer sent a command this build cannot resolve: ".to_owned();
                                m.append(e.as_str());
                                trouble = Some(LinkFailure::Transport(m));
                            }
                        },
                    }
                    k = k + 1;
                }
                assert(theirs.len() == list@.len());
            },
            None => {
                assert(false);
            },
        }
        match trouble {
            Some(f) => {
                self.fail(f);
            },
            None => {},
        }
        out
    }

    /// Hand tick `now` its commands, in the order that both peers push them.
    fn hand_over(&mut self, now: u32, ids: &SimIds, content: &Content, queue: &mut OrderQueue)
        requires
            old(self).wf(),
        ensures
            final(self).wf(),
            final(self)@ == handed_over(old(self)@, ids@, content, now),
            final(queue)@ == old(queue)@ + handed(old(self)@, ids@, content, now),
    {
        let ghost start = self@;
        let ghost q0 = queue@;
        if !self.has_turn(now) {
            assert(q0 + handed(start, ids@, content, now) =~= q0);
            return ;
        }
        let me: Faction = self.me;
        let ghost m = self.my_turns@;
        let mine: Vec<SignedOrder> = match self.my_turns.remove(now) {
            Some(v) => v,
            None => Vec::new(),
        };
        proof {
            assert(my_view(m.remove(now)) =~= my_view(m).remove(now));
            assert(self@ =~= Net { my_turns: start.my_turns.remove(now), ..start });
            assert(orders::claims(mine@) =~= mine_at(start, now));
        }
        let theirs: Vec<SignedOrder> = self.their_orders(now, ids, content);
        match me {
            Faction::A => {
                push_all(queue, now, mine);
                push_all(queue, now, theirs);
            },
            Faction::B => {
                push_all(queue, now, theirs);
                push_all(queue, now, mine);
            },
        }
        proof {
            let t = start.peer_turns[now];
            let (a, b) = (
                mine_at(start, now),
                understood(ids@, content, t, t.len() as int),
            );
            assert(for_tick(now, a + b) =~= for_tick(now, a) + for_tick(now, b));
            assert(for_tick(now, b + a) =~= for_tick(now, b) + for_tick(now, a));
            assert(queue@ =~= q0 + handed(start, ids@, content, now));
        }
    }

    /// Decide whether tick `now` may run.
    fn decide(&mut self, now: u32, waited: F32, gate: &mut TickGate)
        requires
            old(self).wf(),
        ensures
            final(self).wf(),
            final(self)@ == gated(old(self)@, now, waited),
            final(gate).open == (ready(old(self)@, now) && old(self)@.failure is None),
    {
        let ghost start = self@;
        let ready: bool = now < self.config.turn_delay_ticks || self.has_turn(now);
        gate.set(ready && self.failure.is_none());
        if ready {
            self.waiting_secs = F32 { bits: 0 };
            assert(self@ =~= gated(start, now, waited));
        } else {
            self.waiting_secs = waited;
            assert(self@ =~= Net { waiting: waited, ..start });
            if self.config.stall_timeout_secs.lt(&waited) {
                self.fail(LinkFailure::Stalled { tick: now, waited_secs: waited });
                gate.close();
            }
        }
    }

    /// Send the hashes that are due.
    fn send_hashes(&mut self, now: u32, hashes: &Vec<u64>, out: &mut Vec<Frame>)
        requires
            old(self).wf(),
        ensures
            final(self).wf(),
            ({
                let st = old(self)@;
                let next = next_due(st);
                let every = st.config.hash_interval_ticks;
                &&& final(self)@ == (Net {
                    last_hash: last_due(st.last_hash, next, now, every, hashes@),
                    ..st
                })
                &&& wire::said(final(out)@) == wire::said(old(out)@) + hashes_due(
                    next,
                    now,
                    every,
                    hashes@,
                )
            }),
    {
        let ghost st = self@;
        let every: u32 = self.config.hash_interval_ticks;
        let mut next: u32 = match self.last_hash_sent {
            Some(l) => plus(l, every),
            None => 0,
        };
        let ghost first = next;
        while next < now && (next as u64) < (hashes.len() as u64)
            invariant
                self.wf(),
                every > 0,
                every == st.config.hash_interval_ticks,
                first == next_due(st),
                self@ == (Net { last_hash: self.last_hash_sent, ..st }),
                last_due(st.last_hash, first, now, every, hashes@) == last_due(
                    self.last_hash_sent,
                    next,
                    now,
                    every,
                    hashes@,
                ),
                wire::said(old(out)@) + hashes_due(first, now, every, hashes@) == wire::said(out@)
                    + hashes_due(next, now, every, hashes@),
            decreases u32::MAX - next,
        {
            let ghost before = out@;
            let frame = Frame::Hash { tick: next, hash: hashes[next as usize] };
            out.push(frame);
            self.last_hash_sent = Some(next);
            proof {
                assert(wire::said(out@) =~= wire::said(before).push(frame@));
                let rest = hashes_due(on(next, every), now, every, hashes@);
                assert(wire::said(before) + (seq![frame@] + rest) =~= wire::said(out@) + rest);
                assert(self@ =~= Net { last_hash: Some(next), ..st });
            }
            next = plus(next, every);
        }
        proof {
            assert(wire::said(out@) + Seq::<Said>::empty() =~= wire::said(out@));
        }
    }

    /// Compare the peer's hashes with ours.
    fn compare_hashes(&mut self, hashes: &Vec<u64>, gate: &mut TickGate)
        requires
            old(self).wf(),
        ensures
            final(self).wf(),
            final(self)@ == compared(old(self)@, hashes@, hashes@.len() as int),
            final(gate).open == (old(gate).open && !differs(
                old(self)@,
                hashes@,
                hashes@.len() as int,
            )),
    {
        let ghost st = self@;
        let ghost n = hashes@.len() as int;
        let ghost was = gate.open;
        let list = self.peer_hashes.keys_below(hashes.len());
        let ghost mut t: int = 0;
        let mut k: usize = 0;
        while k < list.len()
            invariant
                k <= list@.len(),
                self.wf(),
                n == hashes@.len(),
                0 <= t <= n,
                t == if k == 0 {
                    0
                } else {
                    list@[k - 1] + 1
                },
                self@ == compared(st, hashes@, t),
                gate.open == (was && !differs(st, hashes@, t)),
                forall|i: int|
                    0 <= i < list@.len() ==> #[trigger] list@[i] < n
                        && st.peer_hashes.contains_key(list@[i]),
                forall|i: int, j: int|
                    0 <= i < j < list@.len() ==> #[trigger] list@[i] < #[trigger] list@[j],
                forall|u: u32|
                    #[trigger] st.peer_hashes.contains_key(u) && u < n ==> list@.contains(u),
            decreases list@.len() - k,
        {
            let tick: u32 = list[k];
            let ghost before = self@;
            proof {
                assert forall|u: u32| t <= u < tick implies !#[trigger] st.peer_hashes.contains_key(
                    u,
                ) by {
                    if st.peer_hashes.contains_key(u) {
                        assert(list@.contains(u));
                        let i = choose|i: int| 0 <= i < list@.len() && list@[i] == u;
                        if i < k {
                            assert(i < k - 1 ==> list@[i] < list@[k - 1]);
                        } else if i > k {
                            assert(list@[k as int] < list@[i]);
                        }
                    }
                }
                lemma_skip(st, hashes@, t, tick as int);
                lemma_compared_keeps(st, hashes@, tick as int, tick);
            }
            let theirs: u64 = match self.peer_hashes.remove(tick) {
                Some(h) => h,
                None => 0,
            };
            let ours: u64 = hashes[tick as usize];
            assert(self@ =~= Net { peer_hashes: before.peer_hashes.remove(tick), ..before });
            proof {
                assert(compared(st, hashes@, tick as int) == before);
                assert(theirs == st.peer_hashes[tick]);
            }
            if theirs == ours {
                self.hashes_agreed = plus(self.hashes_agreed, 1);
            } else {
                self.fail(LinkFailure::Desync { tick, ours, theirs });
                gate.close();
                assert(st.peer_hashes.contains_key(tick) && st.peer_hashes[tick]
                    != hashes@[tick as int]);
            }
            proof {
                assert(self@ =~= compared(st, hashes@, tick + 1));
                assert(differs(st, hashes@, tick + 1) <==> differs(st, hashes@, tick as int)
                    || theirs != ours) by {
                    if differs(st, hashes@, tick + 1) {
                        let u = choose|u: u32|
                            u < tick + 1 && #[trigger] st.peer_hashes.contains_key(u)
                                && st.peer_hashes[u] != hashes@[u as int];
                        if u < tick {
                            assert(differs(st, hashes@, tick as int));
                        }
                    }
                    if differs(st, hashes@, tick as int) {
                        let u = choose|u: u32|
                            u < tick && #[trigger] st.peer_hashes.contains_key(u)
                                && st.peer_hashes[u] != hashes@[u as int];
                        assert(u < tick + 1 && st.peer_hashes.contains_key(u));
                    }
                }
                t = tick + 1;
            }
            k = k + 1;
        }
        proof {
            assert forall|u: u32| t <= u < n implies !#[trigger] st.peer_hashes.contains_key(u) by {
                if st.peer_hashes.contains_key(u) {
                    assert(list@.contains(u));
                    let i = choose|i: int| 0 <= i < list@.len() && list@[i] == u;
                    assert(i < list@.len() - 1 ==> list@[i] < list@[list@.len() - 1]);
                }
            }
            lemma_skip(st, hashes@, t, n);
        }
    }

    /// One pump of the link, every step, stalled ones too: a stall is exactly
    /// when the missing turn might arrive. `arrived` is what the connection had,
    /// `closed` whether it is gone, `waited` how long the wait for a missing
    /// turn is by now. What comes back is to be sent.
    pub fn pump(
        &mut self,
        now: u32,
        seed: u64,
        content: &Content,
        ids: &SimIds,
        hashes: Option<&Vec<u64>>,
        arrived: Result<Vec<Frame>, String>,
        closed: bool,
        waited: F32,
        queue: &mut OrderQueue,
        gate: &mut TickGate,
    ) -> (r: Vec<Frame>)
        requires
            old(self).wf(),
            old(self)@.failure is None ==> now + old(self)@.config.turn_delay_ticks <= u32::MAX,
        ensures
            final(self).wf(),
            ({
                let stamp = crate::sim::content::fingerprint::content_hash(*content);
                let label = crate::sim::content::fingerprint::summary_text(*content);
                let i = Input {
                    now,
                    seed,
                    stamp,
                    label,
                    ids: ids@,
                    hashes: hashes_view(hashes),
                    arrived: arrival(arrived),
                    closed,
                    waited,
                };
                let p = pumped(old(self)@, content, i, old(queue)@);
                &&& final(self)@ == p.link
                &&& final(queue)@ == p.queue
                &&& final(gate).open == p.open
                &&& wire::said(r@) == p.out
            }),
            final(self)@.failure is Some ==> !final(gate).open,
            old(self)@.failure is Some ==> final(self)@.failure == old(self)@.failure,
    {
        let ghost st = self@;
        proof {
            let i = Input {
                now,
                seed,
                stamp: crate::sim::content::fingerprint::content_hash(*content),
                label: crate::sim::content::fingerprint::summary_text(*content),
                ids: ids@,
                hashes: hashes_view(hashes),
                arrived: arrival(arrived),
                closed,
                waited,
            };
            laws::a_failure_closes_the_gate(st, content, i, old(queue)@);
        }
        let mine: ContentFingerprint = content.fingerprint();
        let mut out: Vec<Frame> = Vec::new();
        self.greet(seed, &mine, &mut out);
        assert(wire::said(out@) =~= greeting(st, seed, mine.stamp(), mine.label()));
        self.receive(arrived, closed, seed, &mine);
        proof {
            lemma_received_keeps(
                Net { greeted: true, ..st },
                arrival(arrived),
                closed,
                seed,
                mine.stamp(),
                mine.label(),
            );
        }
        if self.failure.is_some() || self.peer.is_none() {
            gate.close();
            return out;
        }
        let ghost read = self@;
        self.collect(queue);
        let turn: u32 = now + self.config.turn_delay_ticks;
        let unsent: bool = match self.last_sent_turn {
            Some(l) => turn > l,
            None => true,
        };
        if unsent {
            self.send_turn(turn, ids, &mut out);
        }
        self.hand_over(now, ids, content, queue);
        self.decide(now, waited, gate);
        match hashes {
            Some(hashes) => {
                self.send_hashes(now, hashes, &mut out);
                self.compare_hashes(hashes, gate);
            },
            None => {},
        }
        out
    }
}

/// What arrived, as a mathematical value.
pub open spec fn arrival(r: Result<Vec<Frame>, String>) -> Result<Seq<Said>, Seq<char>> {
    match r {
        Ok(all) => Ok(wire::said(all@)),
        Err(m) => Err(m@),
    }
}

/// The hashes, as a mathematical value.
pub open spec fn hashes_view(h: Option<&Vec<u64>>) -> Option<Seq<u64>> {
    match h {
        Some(v) => Some(v@),
        None => None,
    }
}

fn push_all(queue: &mut OrderQueue, now: u32, all: Vec<SignedOrder>)
    ensures
        final(queue)@ == old(queue)@ + for_tick(now, orders::claims(all@)),
{
    let ghost q0 = queue@;
    let ghost list = all@;
    let ghost want = for_tick(now, orders::claims(list));
    let mut all = all;
    let ghost mut k: int = 0;
    assert(q0 + want.take(0) =~= q0);
    while all.len() > 0
        invariant
            0 <= k <= list.len(),
            all@ == list.skip(k),
            want == for_tick(now, orders::claims(list)),
            queue@ == q0 + want.take(k),
        decreases all@.len(),
    {
        assert(list.skip(k)[0] == list[k]);
        let signed = all.remove(0);
        assert(all@ =~= list.skip(k + 1));
        queue.push_at(now, signed);
        proof {
            assert(queue@ =~= q0 + want.take(k + 1));
            k = k + 1;
        }
    }
    assert(want.take(k) =~= want);
}

proof fn lemma_skip(st: Net, hashes: Seq<u64>, a: int, b: int)
    requires
        0 <= a <= b,
        forall|u: u32| a <= u < b ==> !#[trigger] st.peer_hashes.contains_key(u),
    ensures
        compared(st, hashes, a) == compared(st, hashes, b),
        differs(st, hashes, a) == differs(st, hashes, b),
    decreases b - a,
{
    if a < b {
        lemma_skip(st, hashes, a, b - 1);
        if b - 1 <= u32::MAX {
            assert(!st.peer_hashes.contains_key((b - 1) as u32));
        }
        if differs(st, hashes, b) {
            let u = choose|u: u32|
                u < b && #[trigger] st.peer_hashes.contains_key(u) && st.peer_hashes[u]
                    != hashes[u as int];
            assert(u < b - 1);
            assert(differs(st, hashes, b - 1));
        }
        if differs(st, hashes, b - 1) {
            let u = choose|u: u32|
                u < b - 1 && #[trigger] st.peer_hashes.contains_key(u) && st.peer_hashes[u]
                    != hashes[u as int];
            assert(u < b && st.peer_hashes.contains_key(u));
        }
    }
}

/// A hash that was not reached yet is still there.
proof fn lemma_compared_keeps(st: Net, hashes: Seq<u64>, t: int, u: u32)
    requires
        0 <= t <= u,
        st.peer_hashes.contains_key(u),
    ensures
        compared(st, hashes, t).peer_hashes.contains_key(u),
        compared(st, hashes, t).peer_hashes[u] == st.peer_hashes[u],
        compared(st, hashes, t).config == st.config,
    decreases t,
{
    if t > 0 {
        lemma_compared_keeps(st, hashes, t - 1, u);
    }
}

proof fn lemma_heard_keeps(
    st: Net,
    all: Seq<Said>,
    our_seed: u64,
    our_stamp: u64,
    our_label: Seq<char>,
    k: int,
)
    ensures
        all_heard(st, all, our_seed, our_stamp, our_label, k).config == st.config,
        all_heard(st, all, our_seed, our_stamp, our_label, k).me == st.me,
        st.failure is Some ==> all_heard(st, all, our_seed, our_stamp, our_label, k).failure
            == st.failure,
    decreases k,
{
    if k > 0 {
        lemma_heard_keeps(st, all, our_seed, our_stamp, our_label, k - 1);
    }
}

proof fn lemma_received_keeps(
    st: Net,
    arrived: Result<Seq<Said>, Seq<char>>,
    closed: bool,
    our_seed: u64,
    our_stamp: u64,
    our_label: Seq<char>,
)
    ensures
        received(st, arrived, closed, our_seed, our_stamp, our_label).config == st.config,
        received(st, arrived, closed, our_seed, our_stamp, our_label).me == st.me,
        st.failure is Some ==> received(st, arrived, closed, our_seed, our_stamp, our_label).failure
            == st.failure,
{
    match arrived {
        Ok(all) => lemma_heard_keeps(st, all, our_seed, our_stamp, our_label, all.len() as int),
        Err(_) => {},
    }
}

} // verus!
