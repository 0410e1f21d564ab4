//! The options panel and the rate report.

use vstd::prelude::*;

use crate::float::F32;
use crate::sim::content::Content;
use crate::sim::UnitKind;
use crate::text;

verus! {

/// One trainable unit of a building, as the panel lists it.
pub open spec fn trainable(content: &Content, i: int, u: int) -> Seq<char> {
    "["@ + text::dec((i + 1) as nat) + "] "@ + content.units@[u].name@ + " ("@ + text::dec(
        content.units@[u].mvp_alloy_cost as nat,
    ) + ")"@
}

/// The trainable units among the first `k` ids of a list. An id that names no
/// unit keeps its number.
pub open spec fn trainables(content: &Content, ids: Seq<String>, k: int) -> Seq<Seq<char>>
    decreases k,
{
    if k <= 0 {
        Seq::empty()
    } else {
        let before = trainables(content, ids, k - 1);
        match content.unit_pos(ids[k - 1]@) {
            Some(u) => before.push(trainable(content, k - 1, u)),
            None => before,
        }
    }
}

/// How many of the first `k` kinds are `kind`.
pub open spec fn of_kind(kinds: Seq<UnitKind>, kind: UnitKind, k: int) -> nat
    decreases k,
{
    if k <= 0 {
        0
    } else {
        of_kind(kinds, kind, k - 1) + if kinds[k - 1] == kind {
            1nat
        } else {
            0nat
        }
    }
}

/// A kind and its number, unless there are none.
pub open spec fn part(kinds: Seq<UnitKind>, kind: UnitKind) -> Seq<Seq<char>> {
    let n = of_kind(kinds, kind, kinds.len() as int);
    if n > 0 {
        seq![text::dec(n) + " "@ + kind.name()]
    } else {
        Seq::empty()
    }
}

/// The selection by kind.
pub open spec fn parts(kinds: Seq<UnitKind>) -> Seq<Seq<char>> {
    part(kinds, UnitKind::Worker) + part(kinds, UnitKind::Soldier) + part(kinds, UnitKind::Scout)
}

/// What the panel shows: a selected building and what it trains, else a
/// selected deposit, else the selected units by kind, else nothing.
pub open spec fn panel(
    content: &Content,
    alloy: u32,
    building: Option<(usize, usize)>,
    node: Option<u32>,
    kinds: Seq<UnitKind>,
) -> Seq<char> {
    let purse = "Alloy: "@ + text::dec(alloy as nat);
    if building matches Some(b) && b.0 < content.buildings@.len() {
        let (def, queued) = building->0;
        let b = content.buildings@[def as int];
        purse + "\n"@ + b.name@ + " selected — "@ + text::dec(queued as nat) + " in production\n"@
            + text::joined(
            trainables(content, b.produces@, b.produces@.len() as int),
            "   "@,
        )
    } else if node is Some {
        purse + "\nResource node selected — "@ + text::dec(node->0 as nat)
            + " left\n[G] Gather   [Q] Queue gather"@
    } else if kinds.len() == 0 {
        Seq::empty()
    } else {
        text::joined(parts(kinds), ", "@) + "  selected  —  right-click: move / gather resource"@
    }
}

fn list_trainables(content: &Content, ids: &Vec<String>) -> (r: Vec<String>)
    ensures
        text::views(r@) == trainables(content, ids@, ids@.len() as int),
{
    let mut out: Vec<String> = Vec::new();
    assert(text::views(out@) =~= Seq::empty());
    let mut k: usize = 0;
    while k < ids.len()
        invariant
            k <= ids@.len(),
            text::views(out@) == trainables(content, ids@, k as int),
        decreases ids@.len() - k,
    {
        match content.unit_index(ids[k].as_str()) {
            Some(u) => {
                let mut s: String = "[".to_owned();
                text::push_dec(&mut s, k as u64 + 1);
                s.append("] ");
                s.append(content.units[u].name.as_str());
                s.append(" (");
                text::push_dec(&mut s, content.units[u].mvp_alloy_cost as u64);
                s.append(")");
                let ghost before = out@;
                assert(s@ == trainable(content, k as int, u as int));
                out.push(s);
                assert(text::views(out@) =~= text::views(before).push(s@));
            },
            None => {},
        }
        k = k + 1;
    }
    out
}

fn push_part(out: &mut Vec<String>, kinds: &Vec<UnitKind>, kind: UnitKind)
    ensures
        text::views(final(out)@) == text::views(old(out)@) + part(kinds@, kind),
{
    let ghost start = out@;
    let mut n: usize = 0;
    let mut k: usize = 0;
    while k < kinds.len()
        invariant
            k <= kinds@.len(),
            n <= k,
            n == of_kind(kinds@, kind, k as int),
        decreases kinds@.len() - k,
    {
        if kinds[k] == kind {
            n = n + 1;
        }
        k = k + 1;
    }
    if n > 0 {
        let mut s: String = text::decimal(n as u64);
        s.append(" ");
        s.append(kind.label());
        out.push(s);
        assert(text::views(out@) =~= text::views(start) + part(kinds@, kind));
    } else {
        assert(text::views(out@) =~= text::views(start) + part(kinds@, kind));
    }
}

/// The text of the options panel. `building` is the first selected building: its
/// definition and how many units it has in production.
pub fn options_text(
    content: &Content,
    alloy: u32,
    building: Option<(usize, usize)>,
    node: Option<u32>,
    kinds: &Vec<UnitKind>,
) -> (r: String)
    ensures
        r@ == panel(content, alloy, building, node, kinds@),
{
    let mut purse: String = "Alloy: ".to_owned();
    text::push_dec(&mut purse, alloy as u64);
    if let Some((def, queued)) = building {
        if def < content.buildings.len() {
            let b = &content.buildings[def];
            let list = list_trainables(content, &b.produces);
            let mut s: String = purse;
            s.append("\n");
            s.append(b.name.as_str());
            s.append(" selected — ");
            text::push_dec(&mut s, queued as u64);
            s.append(" in production\n");
            s.append(text::join(&list, "   ").as_str());
            return s;
        }
    }
    if let Some(left) = node {
        let mut s: String = purse;
        s.append("\nResource node selected — ");
        text::push_dec(&mut s, left as u64);
        s.append(" left\n[G] Gather   [Q] Queue gather");
        return s;
    }
    if kinds.len() == 0 {
        let s: String = String::new();
        assert(s@ =~= Seq::empty());
        return s;
    }
    let mut list: Vec<String> = Vec::new();
    assert(text::views(list@) =~= Seq::empty());
    push_part(&mut list, kinds, UnitKind::Worker);
    push_part(&mut list, kinds, UnitKind::Soldier);
    push_part(&mut list, kinds, UnitKind::Scout);
    assert(text::views(list@) =~= parts(kinds@));
    let mut s: String = text::join(&list, ", ");
    s.append("  selected  —  right-click: move / gather resource");
    s
}

/// Counters for the once-per-second report.
#[derive(Clone, Copy, PartialEq, Eq, Structural, Debug)]
pub struct RateReport {
    pub sim_ticks: u32,
    pub frames: u32,
    pub elapsed: F32,
}

impl Default for RateReport {
    fn default() -> (r: Self)
        ensures
            r == (RateReport { sim_ticks: 0, frames: 0, elapsed: F32 { bits: 0 } }),
    {
        RateReport { sim_ticks: 0, frames: 0, elapsed: F32 { bits: 0 } }
    }
}

impl RateReport {
    /// Count a tick of the simulation.
    pub fn ticked(&mut self)
        requires
            old(self).sim_ticks < u32::MAX,
        ensures
            *final(self) == (RateReport {
                sim_ticks: (old(self).sim_ticks + 1) as u32,
                ..*old(self)
            }),
    {
        self.sim_ticks = self.sim_ticks + 1;
    }

    /// Count a frame; `elapsed` is the time since the last report, this frame
    /// included. After a second the counts are reported, ticks and frames, and
    /// start over.
    pub fn report(&mut self, elapsed: F32) -> (r: Option<(u32, u32)>)
        requires
            old(self).frames < u32::MAX,
        ensures
            if F32::one().at_most(elapsed) {
                r == Some((old(self).sim_ticks, (old(self).frames + 1) as u32)) && *final(self) == (
                RateReport { sim_ticks: 0, frames: 0, elapsed: F32 { bits: 0 } })
            } else {
                r is None && *final(self) == (RateReport {
                    sim_ticks: old(self).sim_ticks,
                    frames: (old(self).frames + 1) as u32,
                    elapsed,
                })
            },
    {
        self.frames = self.frames + 1;
        self.elapsed = elapsed;
        let second: F32 = F32 { bits: 0x3f80_0000 };
        if second.le(&elapsed) {
            let counts: (u32, u32) = (self.sim_ticks, self.frames);
            self.sim_ticks = 0;
            self.frames = 0;
            self.elapsed = F32 { bits: 0 };
            Some(counts)
        } else {
            None
        }
    }
}

/// The panel counts the selection as it is: each kind as often as it is
/// selected.
pub proof fn kinds_are_counted(kinds: Seq<UnitKind>, kind: UnitKind, k: int)
    requires
        0 <= k <= kinds.len(),
    ensures
        of_kind(kinds, kind, k) == kinds.take(k).filter(|x: UnitKind| x == kind).len(),
    decreases k,
{
    reveal(Seq::filter);
    if k > 0 {
        kinds_are_counted(kinds, kind, k - 1);
        assert(kinds.take(k).drop_last() =~= kinds.take(k - 1));
    }
}

/// One thing is shown at a time: a selected building before a selected deposit,
/// that before selected units, and nothing where nothing is selected.
pub proof fn the_panel_shows_one_thing(
    content: &Content,
    alloy: u32,
    b: (usize, usize),
    left: u32,
    node: Option<u32>,
    kinds: Seq<UnitKind>,
)
    requires
        b.0 < content.buildings@.len(),
    ensures
        panel(content, alloy, Some(b), node, kinds) == panel(
            content,
            alloy,
            Some(b),
            None,
            Seq::empty(),
        ),
        panel(content, alloy, None, Some(left), kinds) == panel(
            content,
            alloy,
            None,
            Some(left),
            Seq::empty(),
        ),
        panel(content, alloy, None, None, Seq::empty()).len() == 0,
        kinds.len() > 0 ==> panel(content, alloy, None, None, kinds) == text::joined(
            parts(kinds),
            ", "@,
        ) + "  selected  —  right-click: move / gather resource"@,
{
}

/// A kind is told exactly if it is selected, workers first, then soldiers, then
/// scouts.
pub proof fn the_panel_tells_the_kinds(kinds: Seq<UnitKind>, kind: UnitKind)
    ensures
        kinds.contains(kind) <==> part(kinds, kind).len() == 1,
        !kinds.contains(kind) <==> part(kinds, kind).len() == 0,
        parts(kinds) == part(kinds, UnitKind::Worker) + part(kinds, UnitKind::Soldier) + part(
            kinds,
            UnitKind::Scout,
        ),
{
    lemma_of_kind(kinds, kind, kinds.len() as int);
}

proof fn lemma_of_kind(kinds: Seq<UnitKind>, kind: UnitKind, k: int)
    requires
        0 <= k <= kinds.len(),
    ensures
        of_kind(kinds, kind, k) > 0 <==> exists|i: int| 0 <= i < k && #[trigger] kinds[i] == kind,
    decreases k,
{
    if k > 0 {
        lemma_of_kind(kinds, kind, k - 1);
        if kinds[k - 1] == kind {
            assert(kinds[k - 1] == kind);
        }
    }
}

} // verus!
