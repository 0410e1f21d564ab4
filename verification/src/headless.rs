//! The standard match between two scripted commanders, with no window.

use vstd::prelude::*;

use crate::setup;
use crate::setup::{spawn_unit, Spawn};
use crate::sim::ai;
use crate::sim::ai::{AiCommanders, UnknownStrategy};
use crate::sim::content::Content;
use crate::sim::spatial::Faction;

verus! {

/// The sides of a match, in slot order.
pub const SIDES: [Faction; 2] = [Faction::A, Faction::B];

/// The sim's fixed rate, in ticks per second.
pub const SIM_HZ: u32 = 60;

/// How deep each side's starting deposit is.
pub const NODE_AMOUNT: u32 = 100_000;

/// Workers each side opens with.
pub const STARTING_WORKERS: u32 = 3;

/// The budget for one match: eight minutes of play.
pub const DEFAULT_MATCH_SECS: u32 = 8 * 60;

/// [`DEFAULT_MATCH_SECS`] in ticks.
pub const DEFAULT_TICK_CAP: u32 = DEFAULT_MATCH_SECS * SIM_HZ;

/// Which side holds which base.
#[derive(Clone, Copy, Debug, PartialEq, Eq, Structural)]
pub enum Orientation {
    /// Side A holds the left-hand base.
    Normal,
    /// Side B holds the left-hand base.
    Swapped,
}

impl Orientation {
    /// Both orientations, in the order they are played.
    pub const ALL: [Orientation; 2] = [Orientation::Normal, Orientation::Swapped];

    /// The place of an orientation in [`Orientation::ALL`].
    pub open spec fn slot(self) -> int {
        match self {
            Orientation::Normal => 0,
            Orientation::Swapped => 1,
        }
    }

    /// Who holds the left-hand base.
    pub open spec fn at_left(self) -> Faction {
        match self {
            Orientation::Normal => Faction::A,
            Orientation::Swapped => Faction::B,
        }
    }

    pub open spec fn label(self) -> Seq<char> {
        match self {
            Orientation::Normal => "normal"@,
            Orientation::Swapped => "swapped"@,
        }
    }

    pub fn index(self) -> (r: usize)
        ensures
            r == self.slot(),
            r < 2,
    {
        match self {
            Orientation::Normal => 0,
            Orientation::Swapped => 1,
        }
    }

    pub fn left(self) -> (r: Faction)
        ensures
            r == self.at_left(),
    {
        match self {
            Orientation::Normal => Faction::A,
            Orientation::Swapped => Faction::B,
        }
    }

    pub fn name(self) -> (r: &'static str)
        ensures
            r@ == self.label(),
    {
        match self {
            Orientation::Normal => "normal",
            Orientation::Swapped => "swapped",
        }
    }
}

/// Where the base of a side stands: its horizontal coordinate, in world units
/// from the middle of the map.
pub open spec fn base_x(f: Faction, o: Orientation) -> int {
    if f == o.at_left() {
        -750
    } else {
        750
    }
}

/// Where the base of a side stands: its horizontal coordinate.
pub fn base_of(faction: Faction, orientation: Orientation) -> (r: i32)
    ensures
        r == base_x(faction, orientation),
{
    if faction == orientation.left() {
        -750
    } else {
        750
    }
}

/// The two bases stand mirrored, and the other orientation mirrors each.
pub proof fn bases_mirror(f: Faction, o: Orientation, p: Orientation)
    ensures
        base_x(f, o) == -base_x(f.foe(), o),
        o != p ==> base_x(f, o) == -base_x(f, p),
        o != p ==> base_x(f, o) == base_x(f.foe(), p),
{
}

/// Everything that varies between headless matches.
#[derive(Clone, Debug)]
pub struct MatchSettings {
    /// The match seed.
    pub seed: u64,
    /// The strategy each side plays, by slot. `None` is the content's default.
    pub strategies: [Option<String>; 2],
    /// Record one hash of the state per tick.
    pub hashing: bool,
    /// How many ticks the match may run before the runner gives up on it.
    pub tick_cap: u32,
    /// Which side holds which base.
    pub orientation: Orientation,
}

impl Default for MatchSettings {
    fn default() -> (r: Self)
        ensures
            r.seed == 0,
            r.strategies@[0] is None,
            r.strategies@[1] is None,
            !r.hashing,
            r.tick_cap == DEFAULT_TICK_CAP,
            r.orientation == Orientation::Normal,
    {
        MatchSettings {
            seed: 0,
            strategies: [None, None],
            hashing: false,
            tick_cap: DEFAULT_TICK_CAP,
            orientation: Orientation::Normal,
        }
    }
}

impl MatchSettings {
    pub fn with_seed(self, seed: u64) -> (r: Self)
        ensures
            r == (MatchSettings { seed, ..self }),
    {
        MatchSettings { seed, ..self }
    }

    /// Name the strategy each side plays.
    pub fn with_strategies(self, a: &str, b: &str) -> (r: Self)
        ensures
            r.strategies@[0] matches Some(x) && x@ == a@,
            r.strategies@[1] matches Some(x) && x@ == b@,
            r == (MatchSettings { strategies: r.strategies, ..self }),
    {
        let strategies: [Option<String>; 2] = [Some(a.to_owned()), Some(b.to_owned())];
        MatchSettings { strategies, ..self }
    }

    pub fn with_hashing(self, hashing: bool) -> (r: Self)
        ensures
            r == (MatchSettings { hashing, ..self }),
    {
        MatchSettings { hashing, ..self }
    }

    pub fn with_tick_cap(self, tick_cap: u32) -> (r: Self)
        ensures
            r == (MatchSettings { tick_cap, ..self }),
    {
        MatchSettings { tick_cap, ..self }
    }

    pub fn with_orientation(self, orientation: Orientation) -> (r: Self)
        ensures
            r == (MatchSettings { orientation, ..self }),
    {
        MatchSettings { orientation, ..self }
    }
}

// ---- the match --------------------------------------------------------------

/// The strategy of a side, by name: the content's default if it has none.
pub open spec fn strategy_name(content: &Content, named: Option<String>) -> Seq<char> {
    match named {
        Some(id) => id@,
        None => content.default_strategy@,
    }
}

/// The commanders of a match. With no strategy named on either side both run
/// the content's default; otherwise a side without a name is given the default
/// by its name. An unknown name refuses the match, `A`'s before `B`'s.
pub fn commanders(content: &Content, settings: &MatchSettings) -> (r: Result<
    AiCommanders,
    UnknownStrategy,
>)
    ensures
        ({
            let (a, b) = (settings.strategies@[0], settings.strategies@[1]);
            let (x, y) = (
                content.strategy_pos(strategy_name(content, a)),
                content.strategy_pos(strategy_name(content, b)),
            );
            match r {
                Ok(cs) => {
                    &&& cs.0@.len() == 2
                    &&& if a is None && b is None {
                        cs.0@[0].fresh(Faction::A, settings.seed, None) && cs.0@[1].fresh(
                            Faction::B,
                            settings.seed,
                            None,
                        )
                    } else {
                        &&& x is Some && y is Some
                        &&& cs.0@[0].strategy matches Some(i) && i == x->0
                        &&& cs.0@[1].strategy matches Some(j) && j == y->0
                        &&& cs.0@[0].fresh(Faction::A, settings.seed, cs.0@[0].strategy)
                        &&& cs.0@[1].fresh(Faction::B, settings.seed, cs.0@[1].strategy)
                    }
                },
                Err(e) => {
                    &&& a is Some || b is Some
                    &&& x is None || y is None
                    &&& e.faction == Some(
                        if x is None {
                            Faction::A
                        } else {
                            Faction::B
                        },
                    )
                    &&& e.id@ == strategy_name(
                        content,
                        if x is None {
                            a
                        } else {
                            b
                        },
                    )
                },
            }
        }),
{
    let default: &str = content.default_strategy.as_str();
    let a: &str = match &settings.strategies[0] {
        Some(id) => id.as_str(),
        None => default,
    };
    let b: &str = match &settings.strategies[1] {
        Some(id) => id.as_str(),
        None => default,
    };
    if settings.strategies[0].is_none() && settings.strategies[1].is_none() {
        let sides: [Faction; 2] = SIDES;
        proof {
            assert(sides@[0] == Faction::A);
            assert(sides@[1] == Faction::B);
            reveal_with_fuel(ai::first_side, 3);
            assert(ai::seated(sides@) =~= seq![Faction::A, Faction::B]);
        }
        return Ok(AiCommanders::new(settings.seed, &sides));
    }
    let sides: [(Faction, &str); 2] = [(Faction::A, a), (Faction::B, b)];
    proof {
        reveal_with_fuel(ai::first_side, 3);
        reveal_with_fuel(ai::first_unknown, 3);
        assert(ai::sides_of(sides@) =~= seq![Faction::A, Faction::B]);
        assert(ai::seated(ai::sides_of(sides@)) =~= seq![Faction::A, Faction::B]);
    }
    AiCommanders::matchup(content, settings.seed, &sides)
}

/// What one side starts with: its headquarters, its deposit, its workers.
pub open spec fn side_opening(content: &Content, hq: int, worker: int, f: Faction, o: Orientation)
    -> Seq<Spawn> {
    seq![
        Spawn::Building {
            def: hq as usize,
            faction: f,
            x: base_x(f, o) as i32,
            y: 0,
            health: None,
        },
        Spawn::Node { amount: NODE_AMOUNT, x: base_x(f, o) as i32, y: 250 },
        setup::unit_spawn(content, worker, f, base_x(f, o), 0),
        setup::unit_spawn(content, worker, f, base_x(f, o), 20),
        setup::unit_spawn(content, worker, f, base_x(f, o), 40),
    ]
}

fn open_side(
    content: &Content,
    hq: usize,
    worker: usize,
    f: Faction,
    o: Orientation,
    all: &mut Vec<Spawn>,
)
    requires
        worker < content.units@.len(),
    ensures
        final(all)@ == old(all)@ + side_opening(content, hq as int, worker as int, f, o),
{
    let ghost start = all@;
    let x: i32 = base_of(f, o);
    all.push(Spawn::Building { def: hq, faction: f, x, y: 0, health: None });
    all.push(Spawn::Node { amount: NODE_AMOUNT, x, y: 250 });
    let ghost before = all@;
    let mut i: u32 = 0;
    while i < STARTING_WORKERS
        invariant
            i <= 3,
            x == base_x(f, o),
            worker < content.units@.len(),
            all@ == before + Seq::new(
                i as nat,
                |k: int| setup::unit_spawn(content, worker as int, f, base_x(f, o), 20 * k),
            ),
        decreases STARTING_WORKERS - i,
    {
        all.push(spawn_unit(content, worker, f, x, 20 * i as i32));
        assert(all@ =~= before + Seq::new(
            (i + 1) as nat,
            |k: int| setup::unit_spawn(content, worker as int, f, base_x(f, o), 20 * k),
        ));
        i = i + 1;
    }
    assert(all@ =~= start + side_opening(content, hq as int, worker as int, f, o));
}

/// The world of a match between two scripted commanders, in the order it is
/// spawned. `None` if the content has no `hq` or no `worker`.
pub fn opening(content: &Content, orientation: Orientation) -> (r: Option<Vec<Spawn>>)
    ensures
        match (content.building_pos("hq"@), content.unit_pos("worker"@)) {
            (Some(h), Some(w)) => r matches Some(all) && all@ == side_opening(
                content,
                h,
                w,
                Faction::A,
                orientation,
            ) + side_opening(content, h, w, Faction::B, orientation),
            _ => r is None,
        },
{
    match (content.building_index("hq"), content.unit_index("worker")) {
        (Some(hq), Some(worker)) => {
            let mut all: Vec<Spawn> = Vec::new();
            open_side(content, hq, worker, Faction::A, orientation, &mut all);
            open_side(content, hq, worker, Faction::B, orientation, &mut all);
            assert(all@ =~= side_opening(
                content,
                hq as int,
                worker as int,
                Faction::A,
                orientation,
            ) + side_opening(content, hq as int, worker as int, Faction::B, orientation));
            Some(all)
        },
        _ => None,
    }
}

/// Is `q` what `p` is on the other side of the map, and the other side's?
pub open spec fn mirrored(p: Spawn, q: Spawn) -> bool {
    match (p, q) {
        (
            Spawn::Building { def, faction, x, y, health },
            Spawn::Building { def: e, faction: g, x: u, y: v, health: h },
        ) => def == e && faction != g && u == -x && v == y && health == h,
        (
            Spawn::Unit { def, kind, faction, x, y, health },
            Spawn::Unit { def: e, kind: l, faction: g, x: u, y: v, health: h },
        ) => def == e && kind == l && faction != g && u == -x && v == y && health == h,
        (Spawn::Node { amount, x, y }, Spawn::Node { amount: a, x: u, y: v }) => amount == a && u
            == -x && v == y,
        _ => false,
    }
}

/// Is it on the left-hand side of the map?
pub open spec fn leftward(s: Spawn) -> bool {
    match s {
        Spawn::Building { def, faction, x, y, health } => x < 0,
        Spawn::Unit { def, kind, faction, x, y, health } => x < 0,
        Spawn::Node { amount, x, y } => x < 0,
    }
}

/// An opening favours nobody: what one side starts with is what the other does,
/// mirrored. Whoever holds the left-hand base stands there with everything, and
/// starts with a headquarters, a full deposit and as many workers as the rules
/// say.
pub proof fn an_opening_is_fair(
    content: &Content,
    hq: int,
    worker: int,
    f: Faction,
    o: Orientation,
    i: int,
)
    requires
        0 <= hq <= usize::MAX,
        0 <= worker <= usize::MAX,
        0 <= i < side_opening(content, hq, worker, f, o).len(),
    ensures
        ({
            let (mine, theirs) = (
                side_opening(content, hq, worker, f, o),
                side_opening(content, hq, worker, f.foe(), o),
            );
            &&& mine.len() == theirs.len()
            &&& mirrored(mine[i], theirs[i])
            &&& leftward(mine[i]) <==> f == o.at_left()
            &&& mine.len() == 2 + STARTING_WORKERS
            &&& mine[0] matches Spawn::Building { def, faction, .. } && def == hq && faction == f
            &&& mine[1] matches Spawn::Node { amount, .. } && amount == NODE_AMOUNT
            &&& i >= 2 ==> (mine[i] matches Spawn::Unit { def, faction, .. } && def == worker
                && faction == f)
        }),
{
}

/// Turning the map round changes who is at the left, and nothing else.
pub proof fn orientations_swap_the_bases(f: Faction)
    ensures
        Orientation::Normal.at_left() == Faction::A,
        Orientation::Swapped.at_left() == Orientation::Normal.at_left().foe(),
        base_x(f, Orientation::Normal) < 0 <==> f == Faction::A,
        base_x(f, Orientation::Swapped) < 0 <==> f == Faction::B,
{
}

} // verus!
