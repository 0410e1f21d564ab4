//! Orders, who they are held to, and the queue they wait in.
//!
//! Every order in the queue carries the tick it is to be applied on and an
//! attribution that the rules can check it against.

use std::collections::VecDeque;

use vstd::prelude::*;

use crate::float::Point;
use crate::sim::spatial::Faction;
use crate::sim::world::Entity;

verus! {

/// A sim-affecting order, emitted by input or by a scripted commander.
#[allow(inconsistent_fields)]
#[derive(Debug)]
pub enum Order {
    MoveTo { units: Vec<Entity>, dest: Point },
    Gather { units: Vec<Entity>, node: Entity, node_pos: Point },
    /// Place a building (an index into the content's buildings). Costs Alloy.
    Place { faction: Faction, building: usize, pos: Point },
    /// Train a unit (an index into the content's units) at a building. The
    /// building's faction pays.
    Train { building: Entity, unit: usize },
    /// `order`, signed by the faction that issued it.
    By { issuer: Faction, order: Box<Order> },
}

/// What an order asks for, as a mathematical value.
#[allow(inconsistent_fields)]
pub enum Asked {
    MoveTo { units: Seq<Entity>, dest: Point },
    Gather { units: Seq<Entity>, node: Entity, node_pos: Point },
    Place { faction: Faction, building: usize, pos: Point },
    Train { building: Entity, unit: usize },
    /// A signature around an order. By itself it asks for nothing.
    Signature { issuer: Faction, order: Box<Asked> },
}

/// What an order asks for, signatures and all.
pub open spec fn asked(order: Order) -> Asked
    decreases order,
{
    match order {
        Order::MoveTo { units, dest } => Asked::MoveTo { units: units@, dest },
        Order::Gather { units, node, node_pos } => Asked::Gather { units: units@, node, node_pos },
        Order::Place { faction, building, pos } => Asked::Place { faction, building, pos },
        Order::Train { building, unit } => Asked::Train { building, unit },
        Order::By { issuer, order } => Asked::Signature { issuer, order: Box::new(asked(*order)) },
    }
}

impl View for Order {
    type V = Asked;

    open spec fn view(&self) -> Asked {
        asked(*self)
    }
}

/// The factions that signed an order, the last signature first.
pub open spec fn signers(order: Order) -> Seq<Faction>
    decreases order,
{
    match order {
        Order::By { issuer, order } => seq![issuer] + signers(*order),
        _ => Seq::empty(),
    }
}

/// The order inside all signatures.
pub open spec fn unsigned(order: Order) -> Order
    decreases order,
{
    match order {
        Order::By { issuer, order } => unsigned(*order),
        _ => order,
    }
}

/// What a stack of signatures amounts to: none, one commander's, or, where two
/// disagree, no signature at all.
pub open spec fn attributed(signed: Seq<Faction>) -> Attribution {
    if signed.len() == 0 {
        Attribution::SelfSigned
    } else if forall|i: int| 0 <= i < signed.len() ==> #[trigger] signed[i] == signed[0] {
        Attribution::By(signed[0])
    } else {
        Attribution::Void
    }
}

impl Order {
    /// Sign this order.
    pub fn issued_by(self, issuer: Faction) -> (r: Order)
        ensures
            signers(r) == seq![issuer] + signers(self),
            unsigned(r) == unsigned(self),
    {
        Order::By { issuer, order: Box::new(self) }
    }
}

/// When a command is to be applied.
#[derive(Clone, Copy, PartialEq, Eq, Structural, Debug)]
pub enum CommandTick {
    /// On the next tick that drains the queue.
    Asap,
    /// On exactly this tick, or not at all.
    At(u32),
}

/// Who an order is to be held to.
#[derive(Clone, Copy, PartialEq, Eq, Structural, Debug)]
pub enum Attribution {
    /// Signed by this faction; checked against everything the order touches.
    By(Faction),
    /// Unsigned: attributed to the faction of whatever it touches.
    SelfSigned,
    /// Signed by two different factions. Such an order is dropped.
    Void,
}

/// An order together with its attribution: the only thing the queue can hold.
#[derive(Debug)]
pub struct SignedOrder {
    pub attribution: Attribution,
    pub order: Order,
}

/// The claim and the content of a signed order.
pub struct Claim {
    pub attribution: Attribution,
    pub asked: Asked,
}

impl View for SignedOrder {
    type V = Claim;

    open spec fn view(&self) -> Claim {
        Claim { attribution: self.attribution, asked: self.order@ }
    }
}

impl SignedOrder {
    pub fn attribution(&self) -> (r: Attribution)
        ensures
            r == self.attribution,
    {
        self.attribution
    }

    /// The signing faction, if the order was explicitly signed.
    pub fn issuer(&self) -> (r: Option<Faction>)
        ensures
            r == (match self.attribution {
                Attribution::By(f) => Some(f),
                _ => None,
            }),
    {
        match self.attribution {
            Attribution::By(f) => Some(f),
            _ => None,
        }
    }

    pub fn order(&self) -> (r: &Order)
        ensures
            *r == self.order,
    {
        &self.order
    }

    pub fn into_parts(self) -> (r: (Attribution, Order))
        ensures
            r == (self.attribution, self.order),
    {
        (self.attribution, self.order)
    }

    /// Rebuild a signed order from its parts. This carries a claim forward, it
    /// does not make one true: the attribution is checked when it is applied.
    pub fn from_parts(attribution: Attribution, order: Order) -> (r: Self)
        ensures
            r == (SignedOrder { attribution, order }),
    {
        SignedOrder { attribution, order }
    }
}

/// An order with its signatures turned into an attribution.
pub open spec fn signed(order: Order) -> SignedOrder {
    SignedOrder { attribution: attributed(signers(order)), order: unsigned(order) }
}

impl vstd::std_specs::convert::FromSpecImpl<Order> for SignedOrder {
    open spec fn obeys_from_spec() -> bool {
        true
    }

    open spec fn from_spec(order: Order) -> SignedOrder {
        signed(order)
    }
}

impl From<Order> for SignedOrder {
    /// Attribute an order at the queue boundary: peel its signatures, and refuse
    /// a stack of signatures that disagree.
    fn from(order: Order) -> (r: Self) {
        let ghost all = signers(order);
        let mut issuer: Option<Faction> = None;
        let mut conflict: bool = false;
        let mut inner: Order = order;
        let mut open: bool = true;
        let ghost mut k: int = 0;
        while open
            invariant
                0 <= k <= all.len(),
                all == signers(order),
                signers(inner) == all.skip(k),
                unsigned(inner) == unsigned(order),
                k == 0 <==> issuer is None,
                k > 0 ==> issuer == Some(all[k - 1]),
                conflict == exists|i: int, j: int|
                    0 <= i < k && 0 <= j < k && #[trigger] all[i] != #[trigger] all[j],
                !open ==> !(inner is By),
            decreases all.len() - k + (if open { 1int } else { 0int }),
        {
            match inner {
                Order::By { issuer: f, order: next } => {
                    let clash: bool = match issuer {
                        Some(prev) => prev != f,
                        None => false,
                    };
                    proof {
                        assert(all.skip(k)[0] == all[k]);
                        assert(all[k] == f);
                        assert(all.skip(k + 1) =~= all.skip(k).skip(1));
                        assert(signers(*next) =~= all.skip(k).skip(1));
                        if conflict || clash {
                            if conflict {
                                let (i, j) = choose|i: int, j: int|
                                    0 <= i < k && 0 <= j < k && #[trigger] all[i]
                                        != #[trigger] all[j];
                                assert(all[i] != all[j]);
                            } else {
                                assert(all[k - 1] != all[k]);
                            }
                        } else {
                            assert forall|i: int, j: int|
                                0 <= i < k + 1 && 0 <= j < k + 1 implies #[trigger] all[i]
                                == #[trigger] all[j] by {
                                if k > 0 {
                                    assert(all[k - 1] == all[k]);
                                    if i < k {
                                        assert(all[i] == all[k - 1]);
                                    }
                                    if j < k {
                                        assert(all[j] == all[k - 1]);
                                    }
                                }
                            }
                        }
                        k = k + 1;
                    }
                    conflict = conflict || clash;
                    issuer = Some(f);
                    inner = *next;
                },
                other => {
                    inner = other;
                    open = false;
                },
            }
        }
        proof {
            assert(all.skip(k).len() == 0);
            assert(k == all.len());
            if all.len() > 0 {
                if !conflict {
                    assert forall|i: int| 0 <= i < all.len() implies #[trigger] all[i] == all[0] by {}
                    assert(all[k - 1] == all[0]);
                } else {
                    let (i, j) = choose|i: int, j: int|
                        0 <= i < k && 0 <= j < k && #[trigger] all[i] != #[trigger] all[j];
                    assert(all[i] != all[0] || all[j] != all[0]);
                }
            }
        }
        let attribution = if conflict {
            Attribution::Void
        } else {
            match issuer {
                Some(f) => Attribution::By(f),
                None => Attribution::SelfSigned,
            }
        };
        SignedOrder { attribution, order: inner }
    }
}

/// A signed order and the tick it is to be applied on.
#[derive(Debug)]
pub struct Command {
    pub when: CommandTick,
    pub order: SignedOrder,
}

/// A command, as a mathematical value.
pub struct Scheduled {
    pub when: CommandTick,
    pub claim: Claim,
}

impl View for Command {
    type V = Scheduled;

    open spec fn view(&self) -> Scheduled {
        Scheduled { when: self.when, claim: self.order@ }
    }
}

impl Command {
    pub fn when(&self) -> (r: CommandTick)
        ensures
            r == self.when,
    {
        self.when
    }

    pub fn attribution(&self) -> (r: Attribution)
        ensures
            r == self.order.attribution,
    {
        self.order.attribution()
    }

    pub fn issuer(&self) -> (r: Option<Faction>)
        ensures
            r == (match self.order.attribution {
                Attribution::By(f) => Some(f),
                _ => None,
            }),
    {
        self.order.issuer()
    }

    pub fn order(&self) -> (r: &Order)
        ensures
            *r == self.order.order,
    {
        self.order.order()
    }
}

/// A command the sim has taken off the queue.
#[derive(Debug)]
pub struct TakenCommand {
    /// The tick the sim took it on.
    pub tick: u32,
    /// The schedule it was pushed with.
    pub schedule: CommandTick,
    /// Its tick had already gone by: it is recorded, and not applied.
    pub late: bool,
    pub order: SignedOrder,
}

/// A taken command, as a mathematical value.
pub struct Taken {
    pub tick: u32,
    pub schedule: CommandTick,
    pub late: bool,
    pub claim: Claim,
}

impl View for TakenCommand {
    type V = Taken;

    open spec fn view(&self) -> Taken {
        Taken { tick: self.tick, schedule: self.schedule, late: self.late, claim: self.order@ }
    }
}

/// Is a command still to wait on tick `now`?
pub open spec fn waits(when: CommandTick, now: u32) -> bool {
    when matches CommandTick::At(t) && t > now
}

/// Has a command missed its tick by `now`?
pub open spec fn missed(when: CommandTick, now: u32) -> bool {
    when matches CommandTick::At(t) && t < now
}

/// What becomes of a command that is taken on tick `now`.
pub open spec fn taken_on(c: Scheduled, now: u32) -> Taken {
    Taken { tick: now, schedule: c.when, late: missed(c.when, now), claim: c.claim }
}

/// The commands that tick `now` takes, in push order.
pub open spec fn due(cmds: Seq<Scheduled>, now: u32) -> Seq<Taken>
    decreases cmds.len(),
{
    if cmds.len() == 0 {
        Seq::empty()
    } else if waits(cmds.last().when, now) {
        due(cmds.drop_last(), now)
    } else {
        due(cmds.drop_last(), now).push(taken_on(cmds.last(), now))
    }
}

/// The commands that tick `now` leaves, in push order.
pub open spec fn kept(cmds: Seq<Scheduled>, now: u32) -> Seq<Scheduled>
    decreases cmds.len(),
{
    if cmds.len() == 0 {
        Seq::empty()
    } else if waits(cmds.last().when, now) {
        kept(cmds.drop_last(), now).push(cmds.last())
    } else {
        kept(cmds.drop_last(), now)
    }
}

/// The claims of the commands with no tick of their own, in push order.
pub open spec fn unscheduled(cmds: Seq<Scheduled>) -> Seq<Claim>
    decreases cmds.len(),
{
    if cmds.len() == 0 {
        Seq::empty()
    } else if cmds.last().when is Asap {
        unscheduled(cmds.drop_last()).push(cmds.last().claim)
    } else {
        unscheduled(cmds.drop_last())
    }
}

/// The commands that have a tick of their own, in push order.
pub open spec fn scheduled(cmds: Seq<Scheduled>) -> Seq<Scheduled>
    decreases cmds.len(),
{
    if cmds.len() == 0 {
        Seq::empty()
    } else if cmds.last().when is Asap {
        scheduled(cmds.drop_last())
    } else {
        scheduled(cmds.drop_last()).push(cmds.last())
    }
}

/// The views of a sequence of commands.
pub open spec fn commands(all: Seq<Command>) -> Seq<Scheduled> {
    all.map_values(|c: Command| c@)
}

/// The views of a sequence of taken commands.
pub open spec fn takens(all: Seq<TakenCommand>) -> Seq<Taken> {
    all.map_values(|c: TakenCommand| c@)
}

/// The views of a sequence of signed orders.
pub open spec fn claims(all: Seq<SignedOrder>) -> Seq<Claim> {
    all.map_values(|c: SignedOrder| c@)
}

/// Commands waiting to be applied, in push order.
#[derive(Debug)]
pub struct OrderQueue {
    held: VecDeque<Command>,
}

impl View for OrderQueue {
    type V = Seq<Scheduled>;

    closed spec fn view(&self) -> Seq<Scheduled> {
        commands(self.held@)
    }
}

impl Default for OrderQueue {
    fn default() -> (r: Self)
        ensures
            r@ == Seq::<Scheduled>::empty(),
    {
        let r = OrderQueue { held: VecDeque::new() };
        assert(r@ =~= Seq::empty());
        r
    }
}

impl OrderQueue {
    /// Enqueue an order for the next tick that drains the queue.
    pub fn push_back(&mut self, order: SignedOrder)
        ensures
            final(self)@ == old(self)@.push((Scheduled { when: CommandTick::Asap, claim: order@ })),
    {
        self.held.push_back(Command { when: CommandTick::Asap, order });
        assert(self@ =~= old(self)@.push((Scheduled { when: CommandTick::Asap, claim: order@ })));
    }

    /// Enqueue an order for exactly tick `at`.
    pub fn push_at(&mut self, at: u32, order: SignedOrder)
        ensures
            final(self)@ == old(self)@.push(
                (Scheduled { when: CommandTick::At(at), claim: order@ }),
            ),
    {
        self.held.push_back(Command { when: CommandTick::At(at), order });
        assert(self@ =~= old(self)@.push((Scheduled { when: CommandTick::At(at), claim: order@ })));
    }

    /// Take everything the sim should look at on tick `now`, in push order, and
    /// leave the rest. A command whose tick has gone by is taken and marked
    /// late.
    pub fn take_due(&mut self, now: u32) -> (r: Vec<TakenCommand>)
        ensures
            takens(r@) == due(old(self)@, now),
            final(self)@ == kept(old(self)@, now),
    {
        let ghost all = self.held@;
        let ghost seen = commands(all);
        let n: usize = self.held.len();
        let mut taken: Vec<TakenCommand> = Vec::new();
        let mut left: VecDeque<Command> = VecDeque::new();
        let mut k: usize = 0;
        while k < n
            invariant
                k <= n,
                n == all.len(),
                seen == commands(all),
                self.held@ == all.skip(k as int),
                takens(taken@) == due(seen.take(k as int), now),
                commands(left@) == kept(seen.take(k as int), now),
            decreases n - k,
        {
            let popped = self.held.pop_front();
            proof {
                assert(all.skip(k as int)[0] == all[k as int]);
                assert(all.skip(k as int).subrange(1, all.skip(k as int).len() as int)
                    =~= all.skip(k + 1));
                assert(seen.take(k + 1).drop_last() =~= seen.take(k as int));
                assert(seen.take(k + 1).last() == all[k as int]@);
            }
            match popped {
                Some(cmd) => {
                    let ghost (t0, l0) = (taken@, left@);
                    match cmd.when {
                        CommandTick::At(t) => {
                            if t > now {
                                left.push_back(cmd);
                                assert(commands(left@) =~= commands(l0).push(all[k as int]@));
                            } else {
                                taken.push(
                                    TakenCommand {
                                        tick: now,
                                        schedule: cmd.when,
                                        late: t < now,
                                        order: cmd.order,
                                    },
                                );
                                assert(takens(taken@) =~= takens(t0).push(
                                    taken_on(all[k as int]@, now),
                                ));
                            }
                        },
                        CommandTick::Asap => {
                            taken.push(
                                TakenCommand {
                                    tick: now,
                                    schedule: cmd.when,
                                    late: false,
                                    order: cmd.order,
                                },
                            );
                            assert(takens(taken@) =~= takens(t0).push(
                                taken_on(all[k as int]@, now),
                            ));
                        },
                    }
                },
                None => {},
            }
            k = k + 1;
        }
        assert(seen.take(n as int) =~= seen);
        self.held = left;
        taken
    }

    /// Take the commands that have no tick of their own, in push order, and
    /// leave the rest.
    pub fn take_unscheduled(&mut self) -> (r: Vec<SignedOrder>)
        ensures
            claims(r@) == unscheduled(old(self)@),
            final(self)@ == scheduled(old(self)@),
    {
        let ghost all = self.held@;
        let ghost seen = commands(all);
        let n: usize = self.held.len();
        let mut taken: Vec<SignedOrder> = Vec::new();
        let mut left: VecDeque<Command> = VecDeque::new();
        let mut k: usize = 0;
        while k < n
            invariant
                k <= n,
                n == all.len(),
                seen == commands(all),
                self.held@ == all.skip(k as int),
                claims(taken@) == unscheduled(seen.take(k as int)),
                commands(left@) == scheduled(seen.take(k as int)),
            decreases n - k,
        {
            let popped = self.held.pop_front();
            proof {
                assert(all.skip(k as int)[0] == all[k as int]);
                assert(all.skip(k as int).subrange(1, all.skip(k as int).len() as int)
                    =~= all.skip(k + 1));
                assert(seen.take(k + 1).drop_last() =~= seen.take(k as int));
                assert(seen.take(k + 1).last() == all[k as int]@);
            }
            match popped {
                Some(cmd) => {
                    let ghost (t0, l0) = (taken@, left@);
                    match cmd.when {
                        CommandTick::At(_) => {
                            left.push_back(cmd);
                            assert(commands(left@) =~= commands(l0).push(all[k as int]@));
                        },
                        CommandTick::Asap => {
                            taken.push(cmd.order);
                            assert(claims(taken@) =~= claims(t0).push(all[k as int]@.claim));
                        },
                    }
                },
                None => {},
            }
            k = k + 1;
        }
        assert(seen.take(n as int) =~= seen);
        self.held = left;
        taken
    }

    /// The command that was pushed first.
    pub fn front(&self) -> (r: Option<&Command>)
        ensures
            r is Some == (self@.len() > 0),
            r matches Some(c) ==> c@ == self@[0],
    {
        self.get(0)
    }

    /// The command at place `i`, in push order.
    pub fn get(&self, i: usize) -> (r: Option<&Command>)
        ensures
            r is Some == (i < self@.len()),
            r matches Some(c) ==> c@ == self@[i as int],
    {
        if i < self.held.len() {
            Some(&self.held[i])
        } else {
            None
        }
    }

    pub fn len(&self) -> (r: usize)
        ensures
            r == self@.len(),
    {
        self.held.len()
    }

    pub fn is_empty(&self) -> (r: bool)
        ensures
            r == (self@.len() == 0),
    {
        self.held.len() == 0
    }

    pub fn clear(&mut self)
        ensures
            final(self)@ == Seq::<Scheduled>::empty(),
    {
        self.held.clear();
        assert(self@ =~= Seq::empty());
    }
}

/// Player intents awaiting application.
#[derive(Debug)]
pub struct CommandQueue(pub OrderQueue);

impl Default for CommandQueue {
    fn default() -> (r: Self)
        ensures
            r.0@ == Seq::<Scheduled>::empty(),
    {
        CommandQueue(OrderQueue::default())
    }
}

// ---- laws -------------------------------------------------------------------

/// No command is lost and none is duplicated: each is either taken or left.
pub proof fn none_lost(cmds: Seq<Scheduled>, now: u32)
    ensures
        due(cmds, now).len() + kept(cmds, now).len() == cmds.len(),
        forall|i: int| 0 <= i < kept(cmds, now).len() ==> waits(#[trigger] kept(cmds, now)[i].when, now),
        forall|i: int|
            0 <= i < due(cmds, now).len() ==> !waits(#[trigger] due(cmds, now)[i].schedule, now),
    decreases cmds.len(),
{
    if cmds.len() > 0 {
        none_lost(cmds.drop_last(), now);
    }
}

/// A command is applied on its own tick or never: one that is taken without
/// being late has no tick of its own, or has this one.
pub proof fn on_its_tick_or_never(cmds: Seq<Scheduled>, now: u32, i: int)
    requires
        0 <= i < due(cmds, now).len(),
    ensures
        due(cmds, now)[i].tick == now,
        due(cmds, now)[i].late == missed(due(cmds, now)[i].schedule, now),
        !due(cmds, now)[i].late ==> due(cmds, now)[i].schedule is Asap || due(cmds, now)[i].schedule
            == CommandTick::At(now),
    decreases cmds.len(),
{
    if cmds.len() > 0 {
        if i < due(cmds.drop_last(), now).len() {
            on_its_tick_or_never(cmds.drop_last(), now, i);
        }
    }
}

/// Draining a concatenation is draining its parts: what a tick takes keeps the
/// order it was pushed in, and so does what it leaves.
pub proof fn draining_keeps_push_order(a: Seq<Scheduled>, b: Seq<Scheduled>, now: u32)
    ensures
        due(a + b, now) == due(a, now) + due(b, now),
        kept(a + b, now) == kept(a, now) + kept(b, now),
    decreases b.len(),
{
    if b.len() == 0 {
        assert(a + b =~= a);
        assert(due(a, now) + due(b, now) =~= due(a, now));
        assert(kept(a, now) + kept(b, now) =~= kept(a, now));
    } else {
        assert((a + b).drop_last() =~= a + b.drop_last());
        assert((a + b).last() == b.last());
        draining_keeps_push_order(a, b.drop_last(), now);
        assert(due(a + b, now) =~= due(a, now) + due(b, now));
        assert(kept(a + b, now) =~= kept(a, now) + kept(b, now));
    }
}

/// Re-signing somebody else's order voids it; signing one's own again changes
/// nothing.
pub proof fn resigning_voids(order: Order, by: Faction)
    ensures
        ({
            let again = signed(
                Order::By { issuer: by, order: Box::new(order) },
            );
            let once = signed(order);
            &&& again.order == once.order
            &&& again.attribution == match once.attribution {
                Attribution::SelfSigned => Attribution::By(by),
                Attribution::By(f) => if f == by {
                    Attribution::By(by)
                } else {
                    Attribution::Void
                },
                Attribution::Void => Attribution::Void,
            }
        }),
{
    let s = signers(order);
    let t = seq![by] + s;
    assert(signers(Order::By { issuer: by, order: Box::new(order) }) == t);
    assert forall|i: int| 0 <= i < s.len() implies t[i + 1] == #[trigger] s[i] by {}
    if s.len() > 0 {
        assert(t[1] == s[0]);
        if forall|i: int| 0 <= i < s.len() ==> #[trigger] s[i] == s[0] {
            if s[0] == by {
                assert forall|i: int| 0 <= i < t.len() implies #[trigger] t[i] == t[0] by {
                    if i > 0 {
                        assert(t[i] == s[i - 1]);
                    }
                }
            }
        } else {
            let i = choose|i: int| 0 <= i < s.len() && #[trigger] s[i] != s[0];
            assert(t[i + 1] != t[1]);
        }
    }
}

/// A tick takes exactly the commands that have no tick of their own or whose tick
/// has come, in push order, and leaves the others, in push order. It takes each
/// as it was given, and one whose tick has passed as late.
pub proof fn a_tick_takes_what_is_due(cmds: Seq<Scheduled>, now: u32)
    ensures
        ({
            let taken = cmds.filter(|c: Scheduled| !(c.when matches CommandTick::At(t) && now < t));
            &&& due(cmds, now).len() == taken.len()
            &&& forall|i: int|
                0 <= i < taken.len() ==> {
                    let t = #[trigger] due(cmds, now)[i];
                    &&& t.tick == now
                    &&& t.schedule == taken[i].when
                    &&& t.claim == taken[i].claim
                    &&& t.late <==> (taken[i].when matches CommandTick::At(at) && at < now)
                }
            &&& kept(cmds, now) == cmds.filter(
                |c: Scheduled| c.when matches CommandTick::At(t) && now < t,
            )
        }),
    decreases cmds.len(),
{
    reveal(Seq::filter);
    if cmds.len() > 0 {
        a_tick_takes_what_is_due(cmds.drop_last(), now);
    }
}

/// An unsigned order is nobody's in particular; one that was signed, however
/// often, by one faction is that faction's; one that two factions signed is
/// nobody's to give.
pub proof fn a_signature_says_whose(order: Order, f: Faction)
    ensures
        !(order is By) ==> signed(order).attribution == Attribution::SelfSigned
            && signed(order).order == order,
        signed(order).attribution == Attribution::By(f) <==> signers(order).len() > 0 && forall|i:
            int| 0 <= i < signers(order).len() ==> #[trigger] signers(order)[i] == f,
        signers(order).contains(f) && signers(order).contains(f.foe()) <==> signed(
            order,
        ).attribution == Attribution::Void,
        !(signed(order).order is By),
{
    let s = signers(order);
    lemma_unsigned(order);
    if s.len() > 0 {
        assert(s.contains(s[0]));
        if signed(order).attribution == Attribution::Void {
            let i = choose|i: int| 0 <= i < s.len() && #[trigger] s[i] != s[0];
            assert(s.contains(s[i]));
        }
        if s.contains(f) && s.contains(f.foe()) {
            let i = choose|i: int| 0 <= i < s.len() && s[i] == f;
            let j = choose|j: int| 0 <= j < s.len() && s[j] == f.foe();
            if forall|i: int| 0 <= i < s.len() ==> #[trigger] s[i] == s[0] {
                assert(s[i] == s[0] && s[j] == s[0]);
            }
        }
    }
}

proof fn lemma_unsigned(order: Order)
    ensures
        !(unsigned(order) is By),
    decreases order,
{
    match order {
        Order::By { issuer, order } => lemma_unsigned(*order),
        _ => {},
    }
}

} // verus!
