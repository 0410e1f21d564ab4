//! The command log: every command the simulation consumed, in a form that can
//! be stored and played back.

use vstd::prelude::*;

use crate::float::{F32, Point};
use crate::sim::content::ContentFingerprint;
use crate::sim::orders::{Asked, Attribution, CommandTick, Order};
use crate::sim::spatial::Faction;
use crate::sim::world::Entity;
use crate::text;

verus! {

/// Format version of a persisted log. Loading refuses a version it does not
/// know: a log that cannot be read exactly cannot be replayed at all.
pub const LOG_FORMAT_VERSION: u32 = 1;

/// An order in the form that is stored: entities are their bits, and there is
/// no signature, which has been resolved into an attribution.
#[allow(inconsistent_fields)]
#[derive(Debug, Clone)]
pub enum LoggedOrder {
    MoveTo { units: Vec<u64>, dest: Point },
    Gather { units: Vec<u64>, node: u64, node_pos: Point },
    Place { faction: Faction, building: usize, pos: Point },
    Train { building: u64, unit: usize },
}

/// Bits as entities.
pub open spec fn entities(bits: Seq<u64>) -> Seq<Entity> {
    bits.map_values(|b: u64| Entity { bits: b })
}

impl View for LoggedOrder {
    type V = Asked;

    open spec fn view(&self) -> Asked {
        match *self {
            LoggedOrder::MoveTo { units, dest } => Asked::MoveTo { units: entities(units@), dest },
            LoggedOrder::Gather { units, node, node_pos } => Asked::Gather {
                units: entities(units@),
                node: Entity { bits: node },
                node_pos,
            },
            LoggedOrder::Place { faction, building, pos } => Asked::Place {
                faction,
                building,
                pos,
            },
            LoggedOrder::Train { building, unit } => Asked::Train {
                building: Entity { bits: building },
                unit,
            },
        }
    }
}

/// The entities an order names, in the order they are read back.
pub open spec fn subjects(asked: Asked) -> Seq<Entity> {
    match asked {
        Asked::MoveTo { units, dest } => units,
        Asked::Gather { units, node, node_pos } => units.push(node),
        Asked::Place { .. } => Seq::empty(),
        Asked::Train { building, unit } => seq![building],
        Asked::Signature { .. } => Seq::empty(),
    }
}

/// The coordinates an order carries.
pub open spec fn coordinates(asked: Asked) -> Seq<F32> {
    match asked {
        Asked::MoveTo { units, dest } => seq![dest.x, dest.y],
        Asked::Gather { units, node, node_pos } => seq![node_pos.x, node_pos.y],
        Asked::Place { faction, building, pos } => seq![pos.x, pos.y],
        _ => Seq::empty(),
    }
}

/// The first entity, from place `k` on, that no world can hold.
pub open spec fn first_invalid(all: Seq<Entity>, k: int) -> Option<u64>
    decreases all.len() - k,
{
    if k < 0 || k >= all.len() {
        None
    } else if !all[k].valid() {
        Some(all[k].bits)
    } else {
        first_invalid(all, k + 1)
    }
}

/// How an entity that no world can hold is reported.
pub open spec fn invalid_shown(bits: u64) -> Seq<char> {
    "log: invalid entity bits "@ + text::dec(bits as nat)
}

fn invalid_message(bits: u64) -> (r: String)
    ensures
        r@ == invalid_shown(bits),
{
    let mut m: String = "log: invalid entity bits ".to_owned();
    text::push_dec(&mut m, bits);
    m
}

fn to_bits(all: &Vec<Entity>) -> (r: Vec<u64>)
    ensures
        entities(r@) == all@,
{
    let mut out: Vec<u64> = Vec::new();
    let mut k: usize = 0;
    while k < all.len()
        invariant
            k <= all@.len(),
            entities(out@) == all@.take(k as int),
        decreases all@.len() - k,
    {
        let ghost before = out@;
        out.push(all[k].to_bits());
        assert(entities(out@) =~= entities(before).push(all@[k as int]));
        assert(all@.take(k + 1) =~= all@.take(k as int).push(all@[k as int]));
        k = k + 1;
    }
    assert(all@.take(all@.len() as int) =~= all@);
    out
}

/// Read entities back: all of them, or the first that cannot be read.
fn from_bits(bits: &Vec<u64>) -> (r: Result<Vec<Entity>, u64>)
    ensures
        match r {
            Ok(all) => all@ == entities(bits@) && first_invalid(entities(bits@), 0) is None,
            Err(b) => first_invalid(entities(bits@), 0) == Some(b),
        },
{
    let ghost all = entities(bits@);
    let mut out: Vec<Entity> = Vec::new();
    let mut k: usize = 0;
    while k < bits.len()
        invariant
            k <= bits@.len(),
            all == entities(bits@),
            out@ == all.take(k as int),
            first_invalid(all, 0) == first_invalid(all, k as int),
        decreases bits@.len() - k,
    {
        match Entity::try_from_bits(bits[k]) {
            Some(e) => {
                out.push(e);
                assert(out@ =~= all.take(k + 1));
            },
            None => {
                return Err(bits[k]);
            },
        }
        k = k + 1;
    }
    assert(all.take(bits@.len() as int) =~= all);
    Ok(out)
}

proof fn lemma_first_invalid_push(all: Seq<Entity>, e: Entity, k: int)
    requires
        0 <= k <= all.len(),
    ensures
        first_invalid(all.push(e), k) == match first_invalid(all, k) {
            Some(b) => Some(b),
            None => if e.valid() {
                None
            } else {
                Some(e.bits)
            },
        },
    decreases all.len() - k,
{
    if k < all.len() {
        assert(all.push(e)[k] == all[k]);
        if all[k].valid() {
            lemma_first_invalid_push(all, e, k + 1);
        }
    } else {
        assert(all.push(e)[k] == e);
        assert(first_invalid(all.push(e), k + 1) is None);
    }
}

proof fn lemma_first_invalid(all: Seq<Entity>, k: int)
    requires
        0 <= k <= all.len(),
    ensures
        first_invalid(all, k) is None <==> forall|i: int|
            k <= i < all.len() ==> (#[trigger] all[i]).valid(),
    decreases all.len() - k,
{
    if k < all.len() && all[k].valid() {
        lemma_first_invalid(all, k + 1);
    }
}

impl LoggedOrder {
    /// The loggable form of an order. `None` only for a signature, which is an
    /// attribution and not an order.
    pub fn of(order: &Order) -> (r: Option<Self>)
        ensures
            r is None <==> order@ is Signature,
            r matches Some(l) ==> l@ == order@,
    {
        match order {
            Order::MoveTo { units, dest } => {
                let units: Vec<u64> = to_bits(units);
                Some(LoggedOrder::MoveTo { units, dest: *dest })
            },
            Order::Gather { units, node, node_pos } => {
                let units: Vec<u64> = to_bits(units);
                Some(LoggedOrder::Gather { units, node: node.to_bits(), node_pos: *node_pos })
            },
            Order::Place { faction, building, pos } => Some(
                LoggedOrder::Place { faction: *faction, building: *building, pos: *pos },
            ),
            Order::Train { building, unit } => Some(
                LoggedOrder::Train { building: building.to_bits(), unit: *unit },
            ),
            Order::By { .. } => None,
        }
    }

    /// Back to an order. An entity that no world can hold is an error.
    pub fn to_order(&self) -> (r: Result<Order, String>)
        ensures
            match r {
                Ok(order) => order@ == self@ && first_invalid(subjects(self@), 0) is None,
                Err(m) => first_invalid(subjects(self@), 0) matches Some(b) && m@ == invalid_shown(
                    b,
                ),
            },
    {
        match self {
            LoggedOrder::MoveTo { units, dest } => match from_bits(units) {
                Ok(units) => Ok(Order::MoveTo { units, dest: *dest }),
                Err(b) => Err(invalid_message(b)),
            },
            LoggedOrder::Gather { units, node, node_pos } => {
                proof {
                    lemma_first_invalid_push(entities(units@), Entity { bits: *node }, 0);
                }
                match from_bits(units) {
                    Ok(units) => match Entity::try_from_bits(*node) {
                        Some(node) => Ok(Order::Gather { units, node, node_pos: *node_pos }),
                        None => Err(invalid_message(*node)),
                    },
                    Err(b) => Err(invalid_message(b)),
                }
            },
            LoggedOrder::Place { faction, building, pos } => Ok(
                Order::Place { faction: *faction, building: *building, pos: *pos },
            ),
            LoggedOrder::Train { building, unit } => {
                proof {
                    let e = Entity { bits: *building };
                    lemma_first_invalid_push(Seq::empty(), e, 0);
                    assert(seq![e] =~= Seq::<Entity>::empty().push(e));
                }
                match Entity::try_from_bits(*building) {
                    Some(building) => Ok(Order::Train { building, unit: *unit }),
                    None => Err(invalid_message(*building)),
                }
            },
        }
    }

    /// Every coordinate this order carries.
    fn floats(&self) -> (r: Vec<F32>)
        ensures
            r@ == coordinates(self@),
    {
        let r: Vec<F32> = match self {
            LoggedOrder::MoveTo { units: _, dest } => vec![dest.x, dest.y],
            LoggedOrder::Gather { units: _, node: _, node_pos } => vec![node_pos.x, node_pos.y],
            LoggedOrder::Place { faction: _, building: _, pos } => vec![pos.x, pos.y],
            LoggedOrder::Train { .. } => Vec::new(),
        };
        assert(r@ =~= coordinates(self@));
        r
    }
}

/// What became of a command that was taken off the queue.
#[derive(Clone, Copy, PartialEq, Eq, Structural, Debug)]
pub enum CommandFate {
    /// It was considered on its tick.
    Taken,
    /// Its tick had gone by: it was recorded and not applied.
    Late,
}

/// One command as it was consumed.
#[derive(Debug, Clone)]
pub struct LoggedCommand {
    pub tick: u32,
    pub schedule: CommandTick,
    pub fate: CommandFate,
    pub attribution: Attribution,
    pub order: LoggedOrder,
}

/// One entry of a log, as a mathematical value.
pub struct Entry {
    pub tick: u32,
    pub schedule: CommandTick,
    pub fate: CommandFate,
    pub attribution: Attribution,
    pub asked: Asked,
}

impl View for LoggedCommand {
    type V = Entry;

    open spec fn view(&self) -> Entry {
        Entry {
            tick: self.tick,
            schedule: self.schedule,
            fate: self.fate,
            attribution: self.attribution,
            asked: self.order@,
        }
    }
}

/// The views of a sequence of logged commands.
pub open spec fn entries(all: Seq<LoggedCommand>) -> Seq<Entry> {
    all.map_values(|c: LoggedCommand| c@)
}

/// A whole match's command stream, the seed that drives it, and the content it
/// was played with.
#[derive(Debug, Clone)]
pub struct MatchLog {
    pub version: u32,
    pub seed: u64,
    pub commands: Vec<LoggedCommand>,
    pub content: ContentFingerprint,
}

impl Default for MatchLog {
    fn default() -> (r: Self)
        ensures
            r.version == LOG_FORMAT_VERSION,
            r.seed == 0,
            r.commands@.len() == 0,
            r.content.stamp() == ContentFingerprint::UNKNOWN,
    {
        MatchLog::new(0)
    }
}

/// A coordinate that is no finite number, as text.
pub open spec fn odd_number(f: F32) -> Seq<char> {
    if f.nan() {
        "NaN"@
    } else if f.negative() {
        "-inf"@
    } else {
        "inf"@
    }
}

/// The first coordinate, from place `k` on, that is not finite.
pub open spec fn first_odd(all: Seq<F32>, k: int) -> Option<F32>
    decreases all.len() - k,
{
    if k < 0 || k >= all.len() {
        None
    } else if !all[k].finite() {
        Some(all[k])
    } else {
        first_odd(all, k + 1)
    }
}

/// What keeps a log's commands, from `k` on, from being written.
pub open spec fn unwritable(all: Seq<Entry>, k: int) -> Option<Seq<char>>
    decreases all.len() - k,
{
    if k < 0 || k >= all.len() {
        None
    } else {
        match first_odd(coordinates(all[k].asked), 0) {
            Some(f) => Some(
                "log: non-finite coordinate "@ + odd_number(f) + " in the command at tick "@
                    + text::dec(all[k].tick as nat),
            ),
            None => unwritable(all, k + 1),
        }
    }
}

/// What keeps a log's commands, from `k` on, from being replayed, if the
/// command before was on tick `last`.
pub open spec fn unreadable(all: Seq<Entry>, k: int, last: u32) -> Option<Seq<char>>
    decreases all.len() - k,
{
    if k < 0 || k >= all.len() {
        None
    } else if all[k].tick < last {
        Some(
            "log: tick "@ + text::dec(all[k].tick as nat) + " follows tick "@ + text::dec(
                last as nat,
            ) + " — commands are out of order"@,
        )
    } else {
        match first_invalid(subjects(all[k].asked), 0) {
            Some(b) => Some(invalid_shown(b)),
            None => unreadable(all, k + 1, all[k].tick),
        }
    }
}

fn find_odd(all: &Vec<F32>) -> (r: Option<F32>)
    ensures
        r == first_odd(all@, 0),
{
    let mut k: usize = 0;
    while k < all.len()
        invariant
            k <= all@.len(),
            first_odd(all@, 0) == first_odd(all@, k as int),
        decreases all@.len() - k,
    {
        if !all[k].is_finite() {
            return Some(all[k]);
        }
        k = k + 1;
    }
    None
}

fn odd_text(f: F32) -> (r: &'static str)
    ensures
        r@ == odd_number(f),
{
    if f.is_nan() {
        "NaN"
    } else if f.bits >= 0x8000_0000 {
        "-inf"
    } else {
        "inf"
    }
}

impl MatchLog {
    /// Why this log must not be written: what has no spelling that reads back
    /// as itself, then what would not be read back at all.
    pub open spec fn write_problem(&self) -> Option<Seq<char>> {
        if self.version != LOG_FORMAT_VERSION {
            Some(
                "log: refusing to write format version "@ + text::dec(self.version as nat)
                    + " (this build writes "@ + text::dec(LOG_FORMAT_VERSION as nat) + ")"@,
            )
        } else {
            match unwritable(entries(self.commands@), 0) {
                Some(m) => Some(m),
                None => unreadable(entries(self.commands@), 0, 0),
            }
        }
    }

    /// Why this log must not be replayed.
    pub open spec fn read_problem(&self) -> Option<Seq<char>> {
        if self.version != LOG_FORMAT_VERSION {
            Some(
                "log: format version "@ + text::dec(self.version as nat) + " is not "@ + text::dec(
                    LOG_FORMAT_VERSION as nat,
                ),
            )
        } else {
            unreadable(entries(self.commands@), 0, 0)
        }
    }

    pub fn new(seed: u64) -> (r: Self)
        ensures
            r.version == LOG_FORMAT_VERSION,
            r.seed == seed,
            r.commands@.len() == 0,
            r.content.stamp() == ContentFingerprint::UNKNOWN,
    {
        MatchLog {
            version: LOG_FORMAT_VERSION,
            seed,
            commands: Vec::new(),
            content: ContentFingerprint::unknown(),
        }
    }

    /// The commands of tick `tick`, in the order they were consumed, by their
    /// place in the log.
    pub fn at(&self, tick: u32) -> (r: Vec<usize>)
        ensures
            forall|i: int| 0 <= i < r@.len() ==> #[trigger] r@[i] < self.commands@.len(),
            forall|i: int|
                0 <= i < r@.len() ==> self.commands@[#[trigger] r@[i] as int].tick == tick,
            forall|i: int, j: int| 0 <= i < j < r@.len() ==> #[trigger] r@[i] < #[trigger] r@[j],
            forall|c: int|
                0 <= c < self.commands@.len() && (#[trigger] self.commands@[c]).tick == tick
                    ==> r@.contains(c as usize),
    {
        let mut out: Vec<usize> = Vec::new();
        let mut k: usize = 0;
        while k < self.commands.len()
            invariant
                k <= self.commands@.len(),
                forall|i: int| 0 <= i < out@.len() ==> #[trigger] out@[i] < k,
                forall|i: int|
                    0 <= i < out@.len() ==> self.commands@[#[trigger] out@[i] as int].tick == tick,
                forall|i: int, j: int|
                    0 <= i < j < out@.len() ==> #[trigger] out@[i] < #[trigger] out@[j],
                forall|c: int|
                    0 <= c < k && (#[trigger] self.commands@[c]).tick == tick ==> out@.contains(
                        c as usize,
                    ),
            decreases self.commands@.len() - k,
        {
            let ghost before = out@;
            if self.commands[k].tick == tick {
                out.push(k);
                assert(out@.last() == k);
            }
            proof {
                assert forall|c: int|
                    0 <= c < k + 1 && (#[trigger] self.commands@[c]).tick == tick implies out@.contains(
                    c as usize,
                ) by {
                    if c < k {
                        assert(before.contains(c as usize));
                        let i = choose|i: int| 0 <= i < before.len() && before[i] == c as usize;
                        assert(out@[i] == c as usize);
                    } else {
                        assert(out@[out@.len() - 1] == c as usize);
                    }
                }
            }
            k = k + 1;
        }
        out
    }

    /// May this log be written? Only if it can be read back: a coordinate that is
    /// not finite has no spelling that reads back as itself, and a log that would
    /// be refused is not worth a file.
    pub fn check_writable(&self) -> (r: Result<(), String>)
        ensures
            match r {
                Ok(_) => self.write_problem() is None,
                Err(m) => self.write_problem() == Some(m@),
            },
    {
        if self.version != LOG_FORMAT_VERSION {
            let mut m: String = "log: refusing to write format version ".to_owned();
            text::push_dec(&mut m, self.version as u64);
            m.append(" (this build writes ");
            text::push_dec(&mut m, LOG_FORMAT_VERSION as u64);
            m.append(")");
            assert(Some(m@) =~= self.write_problem());
            return Err(m);
        }
        let mut k: usize = 0;
        while k < self.commands.len()
            invariant
                self.version == LOG_FORMAT_VERSION,
                k <= self.commands@.len(),
                unwritable(entries(self.commands@), 0) == unwritable(
                    entries(self.commands@),
                    k as int,
                ),
            decreases self.commands@.len() - k,
        {
            let c = &self.commands[k];
            assert(entries(self.commands@)[k as int] == c@);
            match find_odd(&c.order.floats()) {
                Some(f) => {
                    let mut m: String = text::cat3(
                        "log: non-finite coordinate ",
                        odd_text(f),
                        " in the command at tick ",
                    );
                    text::push_dec(&mut m, c.tick as u64);
                    return Err(m);
                },
                None => {},
            }
            k = k + 1;
        }
        self.check_commands()
    }

    /// May this log be replayed? Its version must be known, its ticks must not
    /// go back, and every entity it names must be one that a world can hold.
    pub fn check_readable(&self) -> (r: Result<(), String>)
        ensures
            match r {
                Ok(_) => self.read_problem() is None,
                Err(m) => self.read_problem() == Some(m@),
            },
    {
        if self.version != LOG_FORMAT_VERSION {
            let mut m: String = "log: format version ".to_owned();
            text::push_dec(&mut m, self.version as u64);
            m.append(" is not ");
            text::push_dec(&mut m, LOG_FORMAT_VERSION as u64);
            assert(Some(m@) =~= self.read_problem());
            return Err(m);
        }
        self.check_commands()
    }

    /// Can the commands be read back?
    fn check_commands(&self) -> (r: Result<(), String>)
        ensures
            match r {
                Ok(_) => unreadable(entries(self.commands@), 0, 0) is None,
                Err(m) => unreadable(entries(self.commands@), 0, 0) == Some(m@),
            },
    {
        let ghost all = entries(self.commands@);
        let mut last: u32 = 0;
        let mut k: usize = 0;
        while k < self.commands.len()
            invariant
                k <= self.commands@.len(),
                all == entries(self.commands@),
                unreadable(all, 0, 0) == unreadable(all, k as int, last),
            decreases self.commands@.len() - k,
        {
            let c = &self.commands[k];
            assert(entries(self.commands@)[k as int] == c@);
            if c.tick < last {
                let mut m: String = "log: tick ".to_owned();
                text::push_dec(&mut m, c.tick as u64);
                m.append(" follows tick ");
                text::push_dec(&mut m, last as u64);
                m.append(" — commands are out of order");
                assert(Some(m@) =~= unreadable(all, 0, 0));
                return Err(m);
            }
            last = c.tick;
            match c.order.to_order() {
                Ok(_) => {},
                Err(m) => {
                    return Err(m);
                },
            }
            k = k + 1;
        }
        Ok(())
    }
}

/// `a + b`, or the largest number there is.
pub open spec fn counted(a: u32, b: u32) -> u32 {
    if a + b <= u32::MAX {
        (a + b) as u32
    } else {
        u32::MAX
    }
}

fn count_up(a: u32, b: u32) -> (r: u32)
    ensures
        r == counted(a, b),
{
    if b <= u32::MAX - a {
        a + b
    } else {
        u32::MAX
    }
}

/// The match's command log.
#[derive(Debug)]
pub struct CommandLog {
    pub log: MatchLog,
    /// Commands that missed their tick.
    pub late: u32,
    /// Names in orders that the registry does not know.
    pub unnameable: u32,
    /// Commands that were applied without being recorded.
    pub unrecorded: u32,
}

impl Default for CommandLog {
    fn default() -> (r: Self)
        ensures
            r.log.seed == 0,
            r.log.version == LOG_FORMAT_VERSION,
            r.log.commands@.len() == 0,
            r.log.content.stamp() == ContentFingerprint::UNKNOWN,
            r.late == 0,
            r.unnameable == 0,
            r.unrecorded == 0,
    {
        CommandLog::new(0)
    }
}

impl CommandLog {
    /// The entries recorded so far.
    pub open spec fn recorded(&self) -> Seq<Entry> {
        entries(self.log.commands@)
    }

    /// A log for a match played with `seed`.
    pub fn new(seed: u64) -> (r: Self)
        ensures
            r.log.seed == seed,
            r.log.version == LOG_FORMAT_VERSION,
            r.log.commands@.len() == 0,
            r.log.content.stamp() == ContentFingerprint::UNKNOWN,
            r.late == 0,
            r.unnameable == 0,
            r.unrecorded == 0,
    {
        CommandLog { log: MatchLog::new(seed), late: 0, unnameable: 0, unrecorded: 0 }
    }

    pub fn log(&self) -> (r: &MatchLog)
        ensures
            *r == self.log,
    {
        &self.log
    }

    pub fn commands(&self) -> (r: &Vec<LoggedCommand>)
        ensures
            *r == self.log.commands,
    {
        &self.log.commands
    }

    pub fn seed(&self) -> (r: u64)
        ensures
            r == self.log.seed,
    {
        self.log.seed
    }

    pub fn late(&self) -> (r: u32)
        ensures
            r == self.late,
    {
        self.late
    }

    /// Nothing but the commands and the counters differs.
    pub open spec fn same_match(&self, other: &CommandLog) -> bool {
        &&& self.log.version == other.log.version
        &&& self.log.seed == other.log.seed
        &&& self.log.content == other.log.content
    }

    /// Append a command, unless it is only a signature.
    pub fn record(
        &mut self,
        tick: u32,
        schedule: CommandTick,
        fate: CommandFate,
        attribution: Attribution,
        order: &Order,
    )
        ensures
            final(self).recorded() == if order@ is Signature {
                old(self).recorded()
            } else {
                old(self).recorded().push(
                    (Entry { tick, schedule, fate, attribution, asked: order@ }),
                )
            },
            final(self).same_match(old(self)),
            final(self).late == old(self).late,
            final(self).unnameable == old(self).unnameable,
            final(self).unrecorded == old(self).unrecorded,
    {
        match LoggedOrder::of(order) {
            Some(logged) => {
                self.log.commands.push(
                    LoggedCommand { tick, schedule, fate, attribution, order: logged },
                );
                assert(self.recorded() =~= old(self).recorded().push(
                    Entry { tick, schedule, fate, attribution, asked: order@ },
                ));
            },
            None => {},
        }
    }

    /// Count commands that missed their tick.
    pub fn record_late(&mut self, late: u32)
        ensures
            *final(self) == (CommandLog { late: counted(old(self).late, late), ..*old(self) }),
    {
        self.late = count_up(self.late, late);
    }

    /// Count names that could not be resolved.
    pub fn record_unnameable(&mut self, names: u32)
        ensures
            *final(self) == (CommandLog {
                unnameable: counted(old(self).unnameable, names),
                ..*old(self)
            }),
    {
        self.unnameable = count_up(self.unnameable, names);
    }

    /// Count a command that there is no name to record by.
    pub fn record_unrecordable(&mut self)
        ensures
            *final(self) == (CommandLog {
                unrecorded: counted(old(self).unrecorded, 1),
                ..*old(self)
            }),
    {
        self.unrecorded = count_up(self.unrecorded, 1);
    }
}

/// Closed while something outside holds the tick back.
#[derive(Clone, Copy, PartialEq, Eq, Structural, Debug)]
pub struct TickGate {
    pub open: bool,
}

impl Default for TickGate {
    fn default() -> (r: Self)
        ensures
            r.open,
    {
        TickGate { open: true }
    }
}

impl TickGate {
    pub fn close(&mut self)
        ensures
            !final(self).open,
    {
        self.open = false;
    }

    pub fn set(&mut self, open: bool)
        ensures
            final(self).open == open,
    {
        self.open = open;
    }
}

// ---- laws -------------------------------------------------------------------

/// What a write gives, a read gives back: an order that names entities of a
/// world is logged in a form that reads back as the same order.
pub proof fn logged_orders_read_back(order: Order, logged: LoggedOrder)
    requires
        logged@ == order@,
        forall|i: int|
            0 <= i < subjects(order@).len() ==> (#[trigger] subjects(order@)[i]).valid(),
    ensures
        first_invalid(subjects(logged@), 0) is None,
{
    lemma_first_invalid(subjects(logged@), 0);
}

/// What may be written can be read back: a log that would be refused when it is
/// read is refused when it is to be written.
pub proof fn what_is_written_reads_back(log: MatchLog)
    ensures
        log.write_problem() is None ==> log.read_problem() is None,
        log.write_problem() is None <==> log.read_problem() is None && unwritable(
            entries(log.commands@),
            0,
        ) is None,
{
}

/// A recording may be replayed whenever its entries name entities of a world
/// and their ticks do not go back.
pub proof fn recordings_can_be_replayed(log: MatchLog)
    requires
        log.version == LOG_FORMAT_VERSION,
        forall|i: int, j: int|
            0 <= i < j < log.commands@.len() ==> (#[trigger] log.commands@[i]).tick <= (
            #[trigger] log.commands@[j]).tick,
        forall|i: int, s: int|
            0 <= i < log.commands@.len() && 0 <= s < subjects(
                (#[trigger] log.commands@[i])@.asked,
            ).len() ==> (#[trigger] subjects(log.commands@[i]@.asked)[s]).valid(),
    ensures
        log.read_problem() is None,
{
    lemma_readable(log.commands@, 0, 0);
}

proof fn lemma_readable(all: Seq<LoggedCommand>, k: int, last: u32)
    requires
        0 <= k <= all.len(),
        k < all.len() ==> last <= all[k].tick,
        forall|i: int, j: int|
            0 <= i < j < all.len() ==> (#[trigger] all[i]).tick <= (#[trigger] all[j]).tick,
        forall|i: int, s: int|
            0 <= i < all.len() && 0 <= s < subjects((#[trigger] all[i])@.asked).len() ==> (
            #[trigger] subjects(all[i]@.asked)[s]).valid(),
    ensures
        unreadable(entries(all), k, last) is None,
    decreases all.len() - k,
{
    if k < all.len() {
        assert(entries(all)[k] == all[k]@);
        lemma_first_invalid(subjects(all[k]@.asked), 0);
        if k + 1 < all.len() {
            assert(all[k].tick <= all[k + 1].tick);
        }
        lemma_readable(all, k + 1, all[k].tick);
    }
}

/// Does an order name only what a world can hold?
pub open spec fn holdable(asked: Asked) -> bool {
    match asked {
        Asked::MoveTo { units, dest } => forall|i: int|
            0 <= i < units.len() ==> (#[trigger] units[i]).valid(),
        Asked::Gather { units, node, node_pos } => node.valid() && forall|i: int|
            0 <= i < units.len() ==> (#[trigger] units[i]).valid(),
        Asked::Train { building, unit } => building.valid(),
        _ => true,
    }
}

/// Are the coordinates of an order finite?
pub open spec fn placed(asked: Asked) -> bool {
    match asked {
        Asked::MoveTo { units, dest } => dest.x.finite() && dest.y.finite(),
        Asked::Gather { units, node, node_pos } => node_pos.x.finite() && node_pos.y.finite(),
        Asked::Place { faction, building, pos } => pos.x.finite() && pos.y.finite(),
        _ => true,
    }
}

proof fn lemma_holdable(asked: Asked)
    ensures
        first_invalid(subjects(asked), 0) is None <==> holdable(asked),
{
    let all = subjects(asked);
    lemma_all_valid(all, 0);
    match asked {
        Asked::MoveTo { units, dest } => {},
        Asked::Gather { units, node, node_pos } => {
            assert(all[units.len() as int] == node);
            assert forall|i: int| 0 <= i < units.len() implies all[i] == #[trigger] units[i] by {}
            if holdable(asked) {
                assert forall|i: int| 0 <= i < all.len() implies (#[trigger] all[i]).valid() by {
                    if i < units.len() {
                        assert(units[i].valid());
                    }
                }
            }
        },
        Asked::Train { building, unit } => {
            assert(all[0] == building);
        },
        _ => {},
    }
}

proof fn lemma_all_valid(all: Seq<Entity>, k: int)
    requires
        0 <= k <= all.len(),
    ensures
        first_invalid(all, k) is None <==> forall|i: int|
            k <= i < all.len() ==> (#[trigger] all[i]).valid(),
    decreases all.len() - k,
{
    if k < all.len() && all[k].valid() {
        lemma_all_valid(all, k + 1);
    }
}

proof fn lemma_placed(asked: Asked)
    ensures
        first_odd(coordinates(asked), 0) is None <==> placed(asked),
{
    reveal_with_fuel(first_odd, 4);
}

proof fn lemma_written(all: Seq<Entry>, k: int)
    requires
        0 <= k <= all.len(),
    ensures
        unwritable(all, k) is None <==> forall|i: int|
            k <= i < all.len() ==> placed((#[trigger] all[i]).asked),
    decreases all.len() - k,
{
    if k < all.len() {
        lemma_placed(all[k].asked);
        lemma_written(all, k + 1);
    }
}

/// The ticks of the commands from `k` on do not go back, nor behind `last`.
spec fn in_order(all: Seq<Entry>, k: int, last: u32) -> bool {
    &&& forall|i: int| k <= i < all.len() ==> last <= (#[trigger] all[i]).tick
    &&& forall|i: int, j: int|
        k <= i < j < all.len() ==> (#[trigger] all[i]).tick <= (#[trigger] all[j]).tick
}

proof fn lemma_read(all: Seq<Entry>, k: int, last: u32)
    requires
        0 <= k <= all.len(),
    ensures
        unreadable(all, k, last) is None <==> in_order(all, k, last) && forall|i: int|
            k <= i < all.len() ==> holdable((#[trigger] all[i]).asked),
    decreases all.len() - k,
{
    if k < all.len() {
        lemma_holdable(all[k].asked);
        lemma_read(all, k + 1, all[k].tick);
        if in_order(all, k, last) {
            assert(in_order(all, k + 1, all[k].tick));
        }
        if all[k].tick >= last && in_order(all, k + 1, all[k].tick) {
            assert(in_order(all, k, last));
        }
    }
}

/// A log may be replayed exactly if it is of this format, its ticks do not go
/// back, and every order names only what a world can hold. It may be written
/// exactly if, besides, every coordinate in it is finite.
pub proof fn a_log_is_read_exactly_when_it_is_sound(log: MatchLog)
    ensures
        ({
            let all = entries(log.commands@);
            let sound = log.version == LOG_FORMAT_VERSION && (forall|i: int, j: int|
                0 <= i < j < all.len() ==> (#[trigger] all[i]).tick <= (#[trigger] all[j]).tick) && (
            forall|i: int| 0 <= i < all.len() ==> holdable((#[trigger] all[i]).asked));
            &&& log.read_problem() is None <==> sound
            &&& log.write_problem() is None <==> sound && forall|i: int|
                0 <= i < all.len() ==> placed((#[trigger] all[i]).asked)
        }),
{
    let all = entries(log.commands@);
    lemma_read(all, 0, 0);
    lemma_written(all, 0);
}

/// What an order names, and nothing else, are its subjects.
pub proof fn subjects_are_what_is_named(asked: Asked, e: Entity)
    ensures
        subjects(asked).contains(e) <==> match asked {
            Asked::MoveTo { units, dest } => units.contains(e),
            Asked::Gather { units, node, node_pos } => units.contains(e) || node == e,
            Asked::Train { building, unit } => building == e,
            _ => false,
        },
{
    match asked {
        Asked::Gather { units, node, node_pos } => {
            let all = subjects(asked);
            assert(all[units.len() as int] == node);
            if units.contains(e) {
                let i = choose|i: int| 0 <= i < units.len() && units[i] == e;
                assert(all[i] == e);
            }
            if all.contains(e) && node != e {
                let i = choose|i: int| 0 <= i < all.len() && all[i] == e;
                assert(units[i] == e);
            }
        },
        Asked::Train { building, unit } => {
            assert(subjects(asked)[0] == building);
        },
        _ => {},
    }
}

} // verus!
