//! What holds of a tick of combat, read off the snapshot and the verdicts.
//!
//! The laws speak of units by their place in the snapshot and of what is known
//! of them when the tick starts. Who engages whom is said by what is near, not
//! by how it is searched for.

use vstd::prelude::*;

use crate::float::F32;
use crate::sim::combat::damage;
use crate::sim::combat::damage::Health;
use crate::sim::combat::tick;
use crate::sim::combat::tick::{Fighter, Verdict};
use crate::sim::content::Content;
use crate::sim::near;
use crate::sim::spatial::Faction;
use crate::sim::turns;

verus! {

/// `r` holds what a tick of combat makes of each unit of the snapshot.
pub open spec fn settled(content: &Content, fs: Seq<Fighter>, r: Seq<Verdict>) -> bool {
    let order = turns::turns(tick::keys(fs));
    &&& r.len() == fs.len()
    &&& forall|p: int|
        0 <= p < fs.len() ==> r[#[trigger] order[p] as int] == tick::verdict(content, fs, order, p)
}

/// Every unit sees every unit, each unit is one of its own, and every squared
/// distance is a number.
pub open spec fn in_clear_view(fs: Seq<Fighter>) -> bool {
    &&& fs.len() <= usize::MAX
    &&& forall|i: int| 0 <= i < fs.len() ==> (#[trigger] fs[i]).sights@.len() == fs.len()
    &&& forall|i: int, j: int|
        0 <= i < j < fs.len() ==> (#[trigger] fs[i]).entity.bits != (#[trigger] fs[j]).entity.bits
    &&& forall|i: int, j: int|
        0 <= i < fs.len() && 0 <= j < fs.len() ==> !(#[trigger] fs[i].sights@[j]).squared.nan()
}

/// A unit that fights: a known definition with offense and reach, not on a
/// gather job.
pub open spec fn combatant(content: &Content, f: Fighter) -> bool {
    &&& f.def < content.units@.len()
    &&& content.units@[f.def as int].offense > 0
    &&& F32 { bits: 0 }.less(content.units@[f.def as int].mvp_attack_range)
    &&& !f.gathering
}

/// Unit `i` engages unit `j`: `j` is an enemy, no enemy is nearer, of those as
/// near none is older, and it is within the distance at which `i` takes up a
/// fight, or holds on to one.
pub open spec fn engages(content: &Content, fs: Seq<Fighter>, i: int, j: int) -> bool {
    let me = fs[i];
    &&& combatant(content, me)
    &&& 0 <= j < fs.len()
    &&& fs[j].faction != me.faction
    &&& forall|k: int|
        0 <= k < fs.len() && (#[trigger] fs[k]).faction != me.faction
            ==> me.sights@[j].squared.at_most(me.sights@[k].squared) && (
        me.sights@[j].squared.same(me.sights@[k].squared) ==> fs[j].entity.bits
            <= fs[k].entity.bits)
    &&& me.engaging ==> me.sights@[j].distance.at_most(content.combat.pursue_range)
    &&& !me.engaging ==> me.sights@[j].distance.at_most(content.combat.engage_range)
}

/// Unit `j` is within the reach of unit `i`.
pub open spec fn in_reach(content: &Content, fs: Seq<Fighter>, i: int, j: int) -> bool {
    fs[i].sights@[j].distance.at_most(content.units@[fs[i].def as int].mvp_attack_range)
}

/// A unit may hit on a tick that starts with its count at one or at nothing.
pub open spec fn ready(f: Fighter) -> bool {
    f.cooldown matches Some(c) ==> c <= 1
}

/// Unit `i` hits unit `j` this tick.
pub open spec fn strikes(content: &Content, fs: Seq<Fighter>, i: int, j: int) -> bool {
    engages(content, fs, i, j) && in_reach(content, fs, i, j) && ready(fs[i])
}

/// What unit `j` takes from each unit.
pub open spec fn taken_from(content: &Content, fs: Seq<Fighter>, j: int) -> spec_fn(int) -> nat {
    |i: int|
        if strikes(content, fs, i, j) {
            damage::hit(content, fs[i].def as int, fs[j].def as int) as nat
        } else {
            0
        }
}

/// What unit `j` takes from all of them.
pub open spec fn suffered(content: &Content, fs: Seq<Fighter>, j: int) -> nat {
    turns::sum_to(taken_from(content, fs, j), fs.len() as int)
}

// ---- from turns to the snapshot -----------------------------------------------

proof fn lemma_order(fs: Seq<Fighter>)
    requires
        fs.len() <= usize::MAX,
    ensures
        turns::in_turn(tick::keys(fs), turns::turns(tick::keys(fs)), fs.len() as int),
{
    turns::everybody_gets_a_turn(tick::keys(fs));
}

/// The turn of a unit.
proof fn lemma_turn(fs: Seq<Fighter>, i: int) -> (p: int)
    requires
        fs.len() <= usize::MAX,
        0 <= i < fs.len(),
    ensures
        0 <= p < fs.len(),
        turns::turns(tick::keys(fs))[p] == i,
{
    lemma_order(fs);
    let order = turns::turns(tick::keys(fs));
    turns::lemma_has_turn(tick::keys(fs), order, fs.len() as int, i as usize);
    choose|p: int| 0 <= p < fs.len() && #[trigger] order[p] == i as usize
}

/// The quarry of a turn is the unit it engages.
proof fn lemma_quarry(content: &Content, fs: Seq<Fighter>, p: int, q: int)
    requires
        in_clear_view(fs),
        0 <= p < fs.len(),
        0 <= q < fs.len(),
    ensures
        ({
            let order = turns::turns(tick::keys(fs));
            tick::quarry(content, fs, order, p) == Some(q) <==> engages(
                content,
                fs,
                order[p] as int,
                order[q] as int,
            )
        }),
{
    let order = turns::turns(tick::keys(fs));
    let n = fs.len() as int;
    lemma_order(fs);
    let i = order[p] as int;
    let j = order[q] as int;
    let me = fs[i];
    let all = tick::foes(fs, order, p);
    assert forall|k: int| 0 <= k < all.len() implies !(#[trigger] all[k]).squared.nan() by {
        assert(!fs[i].sights@[order[k] as int].squared.nan());
    }
    near::the_choice_is_nearest(all);
    assert(all[q].open == (fs[j].faction != me.faction));
    if tick::quarry(content, fs, order, p) == Some(q) {
        assert forall|k: int| 0 <= k < n && (#[trigger] fs[k]).faction
            != me.faction implies me.sights@[j].squared.at_most(me.sights@[k].squared) && (
        me.sights@[j].squared.same(me.sights@[k].squared) ==> fs[j].entity.bits
            <= fs[k].entity.bits) by {
            let t = lemma_turn(fs, k);
            assert(all[t].open && all[t].squared == me.sights@[k].squared);
            if me.sights@[j].squared.same(me.sights@[k].squared) {
                assert(q <= t);
                assert(tick::keys(fs)[order[q] as int] <= tick::keys(fs)[order[t] as int]);
            }
        }
    }
    if engages(content, fs, i, j) {
        assert(all[q].open);
        let b = near::nearest(all)->0;
        let k = order[b] as int;
        assert(all[b].open && fs[k].faction != me.faction);
        assert(all[b].squared.at_most(all[q].squared));
        assert(me.sights@[j].squared.at_most(me.sights@[k].squared));
        assert(all[b].squared.same(all[q].squared));
        assert(b <= q);
        assert(fs[j].entity.bits <= fs[k].entity.bits);
        assert(tick::keys(fs)[order[b] as int] <= tick::keys(fs)[order[q] as int]);
        if k < j {
            assert(fs[k].entity.bits != fs[j].entity.bits);
        } else if j < k {
            assert(fs[j].entity.bits != fs[k].entity.bits);
        }
        assert(b == q);
    }
}

/// A unit that engages nobody has no quarry, and one that does has it.
proof fn lemma_no_quarry(content: &Content, fs: Seq<Fighter>, p: int)
    requires
        in_clear_view(fs),
        0 <= p < fs.len(),
    ensures
        ({
            let order = turns::turns(tick::keys(fs));
            &&& tick::quarry(content, fs, order, p) matches Some(q) ==> 0 <= q < fs.len()
                && engages(content, fs, order[p] as int, order[q] as int)
            &&& tick::quarry(content, fs, order, p) is None ==> forall|j: int|
                !engages(content, fs, order[p] as int, j)
        }),
{
    let order = turns::turns(tick::keys(fs));
    lemma_order(fs);
    near::lemma_open(tick::foes(fs, order, p), 0, None);
    match tick::quarry(content, fs, order, p) {
        Some(q) => lemma_quarry(content, fs, p, q),
        None => {
            assert forall|j: int| !engages(content, fs, order[p] as int, j) by {
                if engages(content, fs, order[p] as int, j) {
                    let q = lemma_turn(fs, j);
                    lemma_quarry(content, fs, p, q);
                }
            }
        },
    }
}

/// A unit engages one unit at most.
pub proof fn one_fight_at_a_time(content: &Content, fs: Seq<Fighter>, i: int, j: int, k: int)
    requires
        in_clear_view(fs),
        0 <= i < fs.len(),
        engages(content, fs, i, j),
        engages(content, fs, i, k),
    ensures
        j == k,
{
    let p = lemma_turn(fs, i);
    let a = lemma_turn(fs, j);
    let b = lemma_turn(fs, k);
    lemma_quarry(content, fs, p, a);
    lemma_quarry(content, fs, p, b);
}

proof fn lemma_blow(content: &Content, fs: Seq<Fighter>, p: int, q: int)
    requires
        in_clear_view(fs),
        0 <= p < fs.len(),
        0 <= q < fs.len(),
    ensures
        ({
            let order = turns::turns(tick::keys(fs));
            tick::blow(content, fs, order, p, q) == taken_from(content, fs, order[q] as int)(
                order[p] as int,
            )
        }),
{
    lemma_quarry(content, fs, p, q);
}

proof fn lemma_dealt(content: &Content, fs: Seq<Fighter>, q: int, k: int)
    requires
        in_clear_view(fs),
        0 <= q < fs.len(),
        0 <= k <= fs.len(),
    ensures
        ({
            let order = turns::turns(tick::keys(fs));
            tick::dealt(content, fs, order, q, k) == turns::total(
                taken_from(content, fs, order[q] as int),
                order.take(k),
            )
        }),
    decreases k,
{
    let order = turns::turns(tick::keys(fs));
    lemma_order(fs);
    if k > 0 {
        lemma_dealt(content, fs, q, k - 1);
        lemma_blow(content, fs, k - 1, q);
        assert(order.take(k).drop_last() =~= order.take(k - 1));
        assert(order.take(k).last() == order[k - 1]);
    }
}

proof fn lemma_suffered(content: &Content, fs: Seq<Fighter>, q: int)
    requires
        in_clear_view(fs),
        0 <= q < fs.len(),
    ensures
        ({
            let order = turns::turns(tick::keys(fs));
            tick::dealt(content, fs, order, q, fs.len() as int) == suffered(
                content,
                fs,
                order[q] as int,
            )
        }),
{
    let order = turns::turns(tick::keys(fs));
    let n = fs.len() as int;
    lemma_order(fs);
    lemma_dealt(content, fs, q, n);
    assert(order.take(n) =~= order);
    turns::lemma_turns_sum(tick::keys(fs), taken_from(content, fs, order[q] as int), order, n);
}

// ---- harm -----------------------------------------------------------------------

/// What a unit loses is what those who hit it deal, all of it and nothing else.
/// It dies exactly if that is as much as it has left; a unit that is not hurt is
/// left alone, and nobody's pool grows.
pub proof fn harm_is_the_sum_of_blows(
    content: &Content,
    fs: Seq<Fighter>,
    r: Seq<Verdict>,
    j: int,
)
    requires
        in_clear_view(fs),
        settled(content, fs, r),
        0 <= j < fs.len(),
    ensures
        fs[j].health matches Some(h) ==> {
            let d = suffered(content, fs, j);
            &&& d == 0 ==> !r[j].died && r[j].health is None
            &&& d > 0 ==> (r[j].died <==> d >= h.current)
            &&& r[j].died ==> r[j].health is None
            &&& d > 0 && !r[j].died ==> (r[j].health matches Some(g) && g.current == h.current - d
                && g.max == h.max)
        },
        fs[j].health is None ==> {
            let d = suffered(content, fs, j);
            let full = Health::full(content, fs[j].def as int).max;
            &&& r[j].died <==> d >= full
            &&& r[j].died ==> r[j].health is None
            &&& !r[j].died ==> (r[j].health matches Some(g) && g.current == full - d && g.max
                == full)
        },
{
    let order = turns::turns(tick::keys(fs));
    let q = lemma_turn(fs, j);
    lemma_order(fs);
    lemma_suffered(content, fs, q);
    assert(r[order[q] as int] == tick::verdict(content, fs, order, q));
}

/// Nobody is hurt but by an enemy that fights, whose count has run down, and
/// that has him within its reach. This holds however the distances compare.
pub proof fn harm_comes_from_a_ready_enemy(
    content: &Content,
    fs: Seq<Fighter>,
    r: Seq<Verdict>,
    j: int,
) -> (i: int)
    requires
        fs.len() <= usize::MAX,
        tick::sighted(fs),
        settled(content, fs, r),
        0 <= j < fs.len(),
        fs[j].health is Some,
        r[j].died || r[j].health is Some,
    ensures
        0 <= i < fs.len(),
        combatant(content, fs[i]),
        ready(fs[i]),
        fs[i].faction != fs[j].faction,
        in_reach(content, fs, i, j),
        damage::hit(content, fs[i].def as int, fs[j].def as int) > 0,
        fs[i].engaging ==> fs[i].sights@[j].distance.at_most(content.combat.pursue_range),
        !fs[i].engaging ==> fs[i].sights@[j].distance.at_most(content.combat.engage_range),
{
    let order = turns::turns(tick::keys(fs));
    let q = lemma_turn(fs, j);
    lemma_order(fs);
    assert(r[order[q] as int] == tick::verdict(content, fs, order, q));
    let p = lemma_some_blow(content, fs, order, q, fs.len() as int);
    near::lemma_open(tick::foes(fs, order, p), 0, None);
    order[p] as int
}

proof fn lemma_some_blow(
    content: &Content,
    fs: Seq<Fighter>,
    order: Seq<usize>,
    q: int,
    k: int,
) -> (p: int)
    requires
        tick::dealt(content, fs, order, q, k) > 0,
    ensures
        0 <= p < k,
        tick::blow(content, fs, order, p, q) > 0,
    decreases k,
{
    if tick::blow(content, fs, order, k - 1, q) > 0 {
        k - 1
    } else {
        lemma_some_blow(content, fs, order, q, k - 1)
    }
}

/// On a tick on which every unit's count is at two or more nobody is hurt.
pub proof fn while_all_rest_nobody_is_hurt(
    content: &Content,
    fs: Seq<Fighter>,
    r: Seq<Verdict>,
    j: int,
)
    requires
        fs.len() <= usize::MAX,
        tick::sighted(fs),
        settled(content, fs, r),
        0 <= j < fs.len(),
        fs[j].health is Some,
        forall|i: int|
            0 <= i < fs.len() ==> ((#[trigger] fs[i]).cooldown matches Some(c) && c >= 2),
    ensures
        !r[j].died,
        r[j].health is None,
{
    if r[j].died || r[j].health is Some {
        let i = harm_comes_from_a_ready_enemy(content, fs, r, j);
        assert(fs[i].cooldown is Some);
    }
}

// ---- rest -----------------------------------------------------------------------

/// The count a unit starts a tick with.
pub open spec fn count_before(f: Fighter) -> int {
    match f.cooldown {
        Some(c) => c as int,
        None => 0,
    }
}

/// The count a unit ends a tick with: what is written, or what it had.
pub open spec fn count_after(f: Fighter, v: Verdict) -> int {
    match v.cooldown {
        Some(c) => c as int,
        None => count_before(f),
    }
}

/// A unit that hits is set to its full count; every other one that is defined
/// goes down by one, and stays at zero.
pub proof fn a_blow_starts_the_count(
    content: &Content,
    fs: Seq<Fighter>,
    r: Seq<Verdict>,
    i: int,
)
    requires
        in_clear_view(fs),
        settled(content, fs, r),
        0 <= i < fs.len(),
        fs[i].def < content.units@.len(),
    ensures
        (exists|j: int| strikes(content, fs, i, j)) ==> count_after(fs[i], r[i])
            == content.units@[fs[i].def as int].mvp_attack_ticks,
        (forall|j: int| !strikes(content, fs, i, j)) && count_before(fs[i]) > 0 ==> count_after(
            fs[i],
            r[i],
        ) == count_before(fs[i]) - 1,
        (forall|j: int| !strikes(content, fs, i, j)) && count_before(fs[i]) == 0 ==> count_after(
            fs[i],
            r[i],
        ) == 0,
        (exists|j: int| engages(content, fs, i, j)) ==> r[i].cooldown is Some,
{
    let order = turns::turns(tick::keys(fs));
    let p = lemma_turn(fs, i);
    lemma_order(fs);
    assert(r[order[p] as int] == tick::verdict(content, fs, order, p));
    lemma_no_quarry(content, fs, p);
    match tick::quarry(content, fs, order, p) {
        Some(q) => {
            let g = order[q] as int;
            if exists|j: int| strikes(content, fs, i, j) {
                let j = choose|j: int| strikes(content, fs, i, j);
                one_fight_at_a_time(content, fs, i, j, g);
            } else {
                assert(!strikes(content, fs, i, g));
            }
        },
        None => {
            if exists|j: int| strikes(content, fs, i, j) {
                let j = choose|j: int| strikes(content, fs, i, j);
                assert(engages(content, fs, i, j));
            }
        },
    }
}

/// A unit over several ticks: tick by tick the snapshot, the verdicts, and where
/// the unit is listed.
pub struct Day {
    pub fs: Seq<Fighter>,
    pub r: Seq<Verdict>,
    pub at: int,
}

/// One unit's ticks in a row: it keeps its definition, and starts each tick with
/// the count it ended the last one with.
pub open spec fn days_of_one(content: &Content, days: Seq<Day>, def: usize) -> bool {
    &&& def < content.units@.len()
    &&& forall|d: int|
        0 <= d < days.len() ==> {
            let day = #[trigger] days[d];
            &&& in_clear_view(day.fs)
            &&& settled(content, day.fs, day.r)
            &&& 0 <= day.at < day.fs.len()
            &&& day.fs[day.at].def == def
        }
    &&& forall|d: int, e: int|
        0 <= d < days.len() && e == d + 1 && e < days.len() ==> count_before(
            (#[trigger] days[e]).fs[days[e].at],
        ) == count_after((#[trigger] days[d]).fs[days[d].at], days[d].r[days[d].at])
}

/// The unit hits on day `d`.
pub open spec fn hits_on(content: &Content, days: Seq<Day>, d: int) -> bool {
    exists|j: int| strikes(content, days[d].fs, days[d].at, j)
}

/// Between two ticks on which one unit hits lie its attack ticks.
pub proof fn blows_lie_apart(content: &Content, days: Seq<Day>, def: usize, s: int, t: int)
    requires
        days_of_one(content, days, def),
        0 <= s < t < days.len(),
        hits_on(content, days, s),
        hits_on(content, days, t),
    ensures
        t - s >= content.units@[def as int].mvp_attack_ticks,
{
    let _ = lemma_next_blow(content, days, def, s, s + 1, t);
}

/// The count on tick `e` after a blow on tick `s`, until the unit hits again.
proof fn lemma_next_blow(content: &Content, days: Seq<Day>, def: usize, s: int, e: int, t: int) -> (u:
    int)
    requires
        days_of_one(content, days, def),
        0 <= s < e <= t < days.len(),
        hits_on(content, days, s),
        hits_on(content, days, t),
        e == s + 1 || count_before(days[e].fs[days[e].at]) >= content.units@[def as int].mvp_attack_ticks
            - (e - s - 1),
    ensures
        s < u <= t,
        u - s >= content.units@[def as int].mvp_attack_ticks,
    decreases t - e,
{
    let ticks = content.units@[def as int].mvp_attack_ticks;
    if e == s + 1 {
        let day = days[s];
        a_blow_starts_the_count(content, day.fs, day.r, day.at);
        assert(count_before(days[e].fs[days[e].at]) == ticks);
    }
    let day = days[e];
    if hits_on(content, days, e) {
        let j = choose|j: int| strikes(content, day.fs, day.at, j);
        assert(ready(day.fs[day.at]));
        e
    } else {
        a_blow_starts_the_count(content, day.fs, day.r, day.at);
        assert(e < t);
        assert(count_before(days[e + 1].fs[days[e + 1].at]) == count_after(
            day.fs[day.at],
            day.r[day.at],
        ));
        lemma_next_blow(content, days, def, s, e + 1, t)
    }
}

// ---- moves ----------------------------------------------------------------------

/// A unit closes with the one it engages exactly if that one is out of its reach
/// and nobody else sent it somewhere; it drops the move that combat ordered
/// exactly if it has nobody to close with any more.
pub proof fn combat_moves_its_own(
    content: &Content,
    fs: Seq<Fighter>,
    r: Seq<Verdict>,
    i: int,
    j: int,
)
    requires
        in_clear_view(fs),
        settled(content, fs, r),
        0 <= i < fs.len(),
        0 <= j < fs.len(),
    ensures
        r[i].chase == Some(j as usize) <==> engages(content, fs, i, j) && !in_reach(
            content,
            fs,
            i,
            j,
        ) && (fs[i].engaging || !fs[i].moving),
        r[i].chase matches Some(c) ==> c < fs.len(),
        engages(content, fs, i, j) ==> (r[i].halt <==> fs[i].engaging && in_reach(
            content,
            fs,
            i,
            j,
        )),
        (forall|k: int| !engages(content, fs, i, k)) ==> (r[i].halt <==> fs[i].engaging
            && fs[i].def < content.units@.len()),
{
    let order = turns::turns(tick::keys(fs));
    let p = lemma_turn(fs, i);
    let q = lemma_turn(fs, j);
    lemma_order(fs);
    assert(r[order[p] as int] == tick::verdict(content, fs, order, p));
    lemma_no_quarry(content, fs, p);
    lemma_quarry(content, fs, p, q);
    match tick::quarry(content, fs, order, p) {
        Some(g) => {
            assert(order[g] < fs.len());
            if order[g] as int == j {
                assert(g == q);
            }
        },
        None => {},
    }
}

/// A unit's target is the one it engages, as long as both live; the dead have
/// none, and the dead are nobody's.
pub proof fn a_target_is_who_is_engaged(
    content: &Content,
    fs: Seq<Fighter>,
    r: Seq<Verdict>,
    i: int,
    j: int,
)
    requires
        in_clear_view(fs),
        settled(content, fs, r),
        0 <= i < fs.len(),
        0 <= j < fs.len(),
    ensures
        engages(content, fs, i, j) && !r[i].died && !r[j].died ==> r[i].target == Some(
            fs[j].entity,
        ),
        engages(content, fs, i, j) && (r[i].died || r[j].died) ==> r[i].target is None,
        (forall|k: int| !engages(content, fs, i, k)) ==> r[i].target is None,
{
    let order = turns::turns(tick::keys(fs));
    let p = lemma_turn(fs, i);
    let q = lemma_turn(fs, j);
    lemma_order(fs);
    assert(r[order[p] as int] == tick::verdict(content, fs, order, p));
    assert(r[order[q] as int] == tick::verdict(content, fs, order, q));
    lemma_no_quarry(content, fs, p);
    lemma_quarry(content, fs, p, q);
}

// ---- losses ---------------------------------------------------------------------

/// One for each unit of `side` that died.
pub open spec fn fallen(fs: Seq<Fighter>, r: Seq<Verdict>, side: Faction) -> spec_fn(int) -> nat {
    |i: int|
        if fs[i].faction == side && r[i].died {
            1
        } else {
            0
        }
}

/// A side's losses go up by as many as died of it.
pub proof fn losses_are_the_fallen(
    content: &Content,
    fs: Seq<Fighter>,
    r: Seq<Verdict>,
    side: Faction,
)
    requires
        fs.len() <= usize::MAX,
        settled(content, fs, r),
    ensures
        tick::losses(content, fs, turns::turns(tick::keys(fs)), side, fs.len() as int)
            == turns::sum_to(fallen(fs, r, side), fs.len() as int),
{
    let order = turns::turns(tick::keys(fs));
    let n = fs.len() as int;
    lemma_order(fs);
    lemma_losses(content, fs, r, side, n);
    assert(order.take(n) =~= order);
    turns::lemma_turns_sum(tick::keys(fs), fallen(fs, r, side), order, n);
}

proof fn lemma_losses(
    content: &Content,
    fs: Seq<Fighter>,
    r: Seq<Verdict>,
    side: Faction,
    k: int,
)
    requires
        fs.len() <= usize::MAX,
        settled(content, fs, r),
        0 <= k <= fs.len(),
    ensures
        ({
            let order = turns::turns(tick::keys(fs));
            tick::losses(content, fs, order, side, k) == turns::total(
                fallen(fs, r, side),
                order.take(k),
            )
        }),
    decreases k,
{
    let order = turns::turns(tick::keys(fs));
    lemma_order(fs);
    if k > 0 {
        lemma_losses(content, fs, r, side, k - 1);
        assert(order.take(k).drop_last() =~= order.take(k - 1));
        assert(order.take(k).last() == order[k - 1]);
        assert(r[order[k - 1] as int] == tick::verdict(content, fs, order, k - 1));
    }
}

} // verus!
