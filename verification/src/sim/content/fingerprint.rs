//! The fingerprint of a whole content set.
//!
//! Every field of every definition, in order, is written as a stream of 64-bit
//! words: numbers as they are, floating-point numbers by their bits, texts and
//! lists with their length in front, a tag before each section. The
//! fingerprint is the FNV-1a hash of that stream.

use vstd::prelude::*;
use vstd::string::*;
use vstd::utf8::encode_utf8;

use crate::float::F32;
use crate::sim::content::{
    Acquisition, AiDef, ArmyItem, BuildingDef, CombatDef, Content, EconomyDef, NemesisBonus, Opening,
    ResourceDef, StrategyDef, UnitDef,
};
use crate::sim::spatial::wrap_mul;
use crate::sim::UnitKind;
use crate::text;

verus! {

// ---- the stream -------------------------------------------------------------

/// One word, then the rest.
#[verifier::opaque]
pub open spec fn word(v: u64, rest: Seq<u64>) -> Seq<u64> {
    seq![v] + rest
}

pub open spec fn flag(v: bool, rest: Seq<u64>) -> Seq<u64> {
    word(if v { 1 } else { 0 }, rest)
}

/// A text: the number of its bytes, the bytes, then the rest.
#[verifier::opaque]
pub open spec fn chars(s: Seq<char>, rest: Seq<u64>) -> Seq<u64> {
    let bytes = encode_utf8(s);
    word(bytes.len() as u64, bytes.map_values(|b: u8| b as u64) + rest)
}

pub open spec fn opt_chars(s: Option<Seq<char>>, rest: Seq<u64>) -> Seq<u64> {
    match s {
        None => word(0, rest),
        Some(s) => word(1, chars(s, rest)),
    }
}

/// The texts from position `i` on, then the rest.
pub open spec fn texts(all: Seq<String>, i: int, rest: Seq<u64>) -> Seq<u64>
    decreases all.len() - i,
{
    if i < 0 || i >= all.len() {
        rest
    } else {
        chars(all[i]@, texts(all, i + 1, rest))
    }
}

/// A list of texts: their number, the texts, then the rest.
pub open spec fn text_list(all: Seq<String>, rest: Seq<u64>) -> Seq<u64> {
    word(all.len() as u64, texts(all, 0, rest))
}

/// The content of an optional text.
pub open spec fn opt_view(s: Option<String>) -> Option<Seq<char>> {
    match s {
        Some(s) => Some(s@),
        None => None,
    }
}

pub open spec fn kind_word(k: UnitKind) -> u64 {
    match k {
        UnitKind::Worker => 0,
        UnitKind::Soldier => 1,
        UnitKind::Scout => 2,
    }
}

pub open spec fn acquisition_word(a: Acquisition) -> u64 {
    match a {
        Acquisition::Mined => 0,
        Acquisition::Grown => 1,
        Acquisition::Channeled => 2,
    }
}

pub open spec fn unit_stats(u: UnitDef, rest: Seq<u64>) -> Seq<u64> {
    word(
        u.mvp_alloy_cost as u64,
        word(
            u.mvp_train_ticks as u64,
            word(
                u.mvp_carry_capacity as u64,
                word(
                    u.mvp_gather_ticks as u64,
                    word(
                        u.mvp_attack_ticks as u64,
                        word(
                            u.mvp_attack_range.bits as u64,
                            word(
                                u.speed as u64,
                                word(
                                    u.offense as u64,
                                    word(u.defense as u64, word(u.armor as u64, rest)),
                                ),
                            ),
                        ),
                    ),
                ),
            ),
        ),
    )
}

pub open spec fn unit_words(u: UnitDef, rest: Seq<u64>) -> Seq<u64> {
    chars(
        u.id@,
        chars(
            u.name@,
            opt_chars(
                opt_view(u.source),
                opt_chars(
                    opt_view(u.barracks),
                    chars(
                        u.cost.resource@,
                        word(
                            u.cost.amount as u64,
                            word(
                                kind_word(u.mvp_kind),
                                unit_stats(
                                    u,
                                    opt_chars(
                                        opt_view(u.nemesis),
                                        flag(u.gathers, flag(u.builds, rest)),
                                    ),
                                ),
                            ),
                        ),
                    ),
                ),
            ),
        ),
    )
}

pub open spec fn units_words(all: Seq<UnitDef>, i: int, rest: Seq<u64>) -> Seq<u64>
    decreases all.len() - i,
{
    if i < 0 || i >= all.len() {
        rest
    } else {
        unit_words(all[i], units_words(all, i + 1, rest))
    }
}

pub open spec fn building_words(b: BuildingDef, rest: Seq<u64>) -> Seq<u64> {
    chars(
        b.id@,
        chars(
            b.name@,
            word(
                b.alloy_cost as u64,
                text_list(
                    b.produces@,
                    flag(
                        b.dropoff,
                        flag(
                            b.victory,
                            word(b.mvp_defense as u64, word(b.mvp_armor as u64, rest)),
                        ),
                    ),
                ),
            ),
        ),
    )
}

pub open spec fn buildings_words(all: Seq<BuildingDef>, i: int, rest: Seq<u64>) -> Seq<u64>
    decreases all.len() - i,
{
    if i < 0 || i >= all.len() {
        rest
    } else {
        building_words(all[i], buildings_words(all, i + 1, rest))
    }
}

pub open spec fn combat_words(c: CombatDef, rest: Seq<u64>) -> Seq<u64> {
    word(
        c.hp_per_defense as u64,
        word(
            c.damage_per_offense as u64,
            word(
                c.mitigation_per_armor as u64,
                word(
                    c.speed_per_point.bits as u64,
                    word(
                        c.engage_range.bits as u64,
                        word(
                            c.pursue_range.bits as u64,
                            word(
                                c.max_stat as u64,
                                word(c.building_hp_per_defense as u64, rest),
                            ),
                        ),
                    ),
                ),
            ),
        ),
    )
}

pub open spec fn nemesis_words(n: NemesisBonus, rest: Seq<u64>) -> Seq<u64> {
    word(n.damage_mult.bits as u64, flag(n.ignore_armor, rest))
}

pub open spec fn army_words(all: Seq<ArmyItem>, i: int, rest: Seq<u64>) -> Seq<u64>
    decreases all.len() - i,
{
    if i < 0 || i >= all.len() {
        rest
    } else {
        chars(all[i].unit@, word(all[i].count as u64, army_words(all, i + 1, rest)))
    }
}

pub open spec fn ai_words(a: AiDef, rest: Seq<u64>) -> Seq<u64> {
    word(
        a.think_interval_ticks as u64,
        word(
            a.worker_target as u64,
            chars(
                a.barracks@,
                word(
                    a.barracks_at_tick as u64,
                    word(
                        a.barracks_offset.bits as u64,
                        word(
                            a.attack_at_army as u64,
                            word(
                                a.attack_interval_ticks as u64,
                                word(
                                    a.attack_spread.bits as u64,
                                    word(a.army@.len() as u64, army_words(a.army@, 0, rest)),
                                ),
                            ),
                        ),
                    ),
                ),
            ),
        ),
    )
}

pub open spec fn resource_words(r: ResourceDef, rest: Seq<u64>) -> Seq<u64> {
    chars(
        r.id@,
        chars(
            r.name@,
            chars(
                r.domain@,
                chars(
                    r.building@,
                    word(acquisition_word(r.acquisition), text_list(r.powers@, rest)),
                ),
            ),
        ),
    )
}

pub open spec fn resources_words(all: Seq<ResourceDef>, i: int, rest: Seq<u64>) -> Seq<u64>
    decreases all.len() - i,
{
    if i < 0 || i >= all.len() {
        rest
    } else {
        resource_words(all[i], resources_words(all, i + 1, rest))
    }
}

pub open spec fn economy_words(e: EconomyDef, rest: Seq<u64>) -> Seq<u64> {
    chars(
        e.currency@,
        word(
            e.starting_alloy as u64,
            word(e.gather_range.bits as u64, word(e.deposit_range.bits as u64, rest)),
        ),
    )
}

pub open spec fn openings_words(all: Seq<Opening>, i: int, rest: Seq<u64>) -> Seq<u64>
    decreases all.len() - i,
{
    if i < 0 || i >= all.len() {
        rest
    } else {
        chars(
            all[i].building@,
            word(
                all[i].at_tick as u64,
                word(all[i].offset.bits as u64, openings_words(all, i + 1, rest)),
            ),
        )
    }
}

pub open spec fn strategy_words(s: StrategyDef, rest: Seq<u64>) -> Seq<u64> {
    chars(
        s.id@,
        word(
            s.think_interval_ticks as u64,
            word(
                s.worker_target as u64,
                word(
                    s.attack_at_army as u64,
                    word(
                        s.attack_interval_ticks as u64,
                        word(
                            s.attack_spread.bits as u64,
                            word(
                                s.barracks@.len() as u64,
                                openings_words(
                                    s.barracks@,
                                    0,
                                    word(s.army@.len() as u64, army_words(s.army@, 0, rest)),
                                ),
                            ),
                        ),
                    ),
                ),
            ),
        ),
    )
}

pub open spec fn strategies_words(all: Seq<StrategyDef>, i: int, rest: Seq<u64>) -> Seq<u64>
    decreases all.len() - i,
{
    if i < 0 || i >= all.len() {
        rest
    } else {
        strategy_words(all[i], strategies_words(all, i + 1, rest))
    }
}

pub open spec fn resources_section(c: Content) -> Seq<u64> {
    chars(
        "resources"@,
        word(
            c.resources@.len() as u64,
            resources_words(
                c.resources@,
                0,
                chars("mvp_active"@, text_list(c.mvp_active@, economy_section(c))),
            ),
        ),
    )
}

pub open spec fn economy_section(c: Content) -> Seq<u64> {
    chars("economy"@, economy_words(c.economy, strategies_section(c)))
}

/// The scripts, where the content holds any.
pub open spec fn strategies_section(c: Content) -> Seq<u64> {
    if c.scripted() {
        chars(
            "strategies"@,
            word(
                c.strategies@.len() as u64,
                strategies_words(c.strategies@, 0, chars(c.default_strategy@, Seq::empty())),
            ),
        )
    } else {
        Seq::empty()
    }
}

pub open spec fn combat_section(c: Content) -> Seq<u64> {
    chars(
        "combat"@,
        combat_words(
            c.combat,
            chars(
                "nemesis"@,
                nemesis_words(c.nemesis_bonus, chars("ai"@, ai_words(c.ai, resources_section(c)))),
            ),
        ),
    )
}

/// The whole content set as words.
pub open spec fn stream(c: Content) -> Seq<u64> {
    chars(
        "units"@,
        word(
            c.units@.len() as u64,
            units_words(
                c.units@,
                0,
                chars(
                    "buildings"@,
                    word(
                        c.buildings@.len() as u64,
                        buildings_words(c.buildings@, 0, combat_section(c)),
                    ),
                ),
            ),
        ),
    )
}

// ---- the hash ---------------------------------------------------------------

/// FNV-1a, one word further.
pub open spec fn fnv_step(h: u64, v: u64) -> u64 {
    wrap_mul(h ^ v, 0x0000_0100_0000_01b3)
}

/// FNV-1a over words.
pub open spec fn fnv(words: Seq<u64>) -> u64
    decreases words.len(),
{
    if words.len() == 0 {
        0xcbf2_9ce4_8422_2325
    } else {
        fnv_step(fnv(words.drop_last()), words.last())
    }
}

/// A hash as it is reported. Zero is reserved for "unknown", and reported as
/// one; every other hash as it is.
pub open spec fn reported(h: u64) -> u64 {
    if h == 0 {
        1
    } else {
        h
    }
}

/// The hash of a content set.
pub open spec fn content_hash(c: Content) -> u64 {
    reported(fnv(stream(c)))
}

/// FNV-1a over the words written so far.
pub struct Fnv {
    h: u64,
    words: Ghost<Seq<u64>>,
}

impl Fnv {
    /// The hash so far, zero or not.
    pub closed spec fn state(&self) -> u64 {
        self.h
    }

    /// The words written so far.
    pub closed spec fn written(&self) -> Seq<u64> {
        self.words@
    }

    /// The state is the hash of what was written.
    pub open spec fn wf(&self) -> bool {
        self.state() == fnv(self.written())
    }

    pub fn new() -> (r: Self)
        ensures
            r.wf(),
            r.written() == Seq::<u64>::empty(),
    {
        Fnv { h: 0xcbf2_9ce4_8422_2325, words: Ghost(Seq::empty()) }
    }

    /// One word further.
    pub fn u64(&mut self, v: u64)
        ensures
            final(self).state() == fnv_step(old(self).state(), v),
            final(self).written() == old(self).written().push(v),
            old(self).wf() ==> final(self).wf(),
            forall|rest: Seq<u64>| #[trigger]
                (old(self).written() + word(v, rest)) == final(self).written() + rest,
    {
        let ghost before = self.words@;
        self.h = (self.h ^ v).wrapping_mul(0x0000_0100_0000_01b3);
        self.words = Ghost(before.push(v));
        proof {
            reveal(word);
            assert(self.words@.drop_last() =~= before);
            assert forall|rest: Seq<u64>| #[trigger] (before + word(v, rest)) == self.words@
                + rest by {
                assert(before + word(v, rest) =~= self.words@ + rest);
            }
        }
    }

    fn u32(&mut self, v: u32)
        requires
            old(self).wf(),
        ensures
            final(self).wf(),
            forall|rest: Seq<u64>| #[trigger]
                (old(self).words@ + word(v as u64, rest)) == final(self).words@ + rest,
    {
        self.u64(v as u64)
    }

    fn bool(&mut self, v: bool)
        requires
            old(self).wf(),
        ensures
            final(self).wf(),
            forall|rest: Seq<u64>| #[trigger]
                (old(self).words@ + flag(v, rest)) == final(self).words@ + rest,
    {
        let w: u64 = if v {
            1
        } else {
            0
        };
        self.u64(w)
    }

    /// Exact bits, so a change that no decimal rendering shows still counts.
    fn float(&mut self, v: F32)
        requires
            old(self).wf(),
        ensures
            final(self).wf(),
            forall|rest: Seq<u64>| #[trigger]
                (old(self).words@ + word(v.bits as u64, rest)) == final(self).words@ + rest,
    {
        self.u64(v.bits as u64)
    }

    fn str(&mut self, s: &str)
        requires
            old(self).wf(),
        ensures
            final(self).wf(),
            forall|rest: Seq<u64>| #[trigger]
                (old(self).words@ + chars(s@, rest)) == final(self).words@ + rest,
    {
        let ghost before = self.words@;
        let bytes: &[u8] = s.as_bytes();
        self.u64(bytes.len() as u64);
        let ghost ws = bytes@.map_values(|b: u8| b as u64);
        let mut i: usize = 0;
        while i < bytes.len()
            invariant
                i <= bytes@.len(),
                self.wf(),
                ws == bytes@.map_values(|b: u8| b as u64),
                self.words@ == before.push(bytes@.len() as u64) + ws.take(i as int),
            decreases bytes@.len() - i,
        {
            self.u64(bytes[i] as u64);
            proof {
                assert(self.words@ =~= before.push(bytes@.len() as u64) + ws.take(i + 1));
            }
            i = i + 1;
        }
        proof {
            reveal(word);
            reveal(chars);
            assert(ws.take(i as int) =~= ws);
            assert forall|rest: Seq<u64>| #[trigger] (before + chars(s@, rest)) == self.words@
                + rest by {
                assert(before + chars(s@, rest) =~= self.words@ + rest);
            }
        }
    }

    fn opt_str(&mut self, s: &Option<String>)
        requires
            old(self).wf(),
        ensures
            final(self).wf(),
            forall|rest: Seq<u64>| #[trigger]
                (old(self).words@ + opt_chars(opt_view(*s), rest)) == final(self).words@ + rest,
    {
        match s {
            None => self.u64(0),
            Some(s) => {
                self.u64(1);
                self.str(s.as_str());
            },
        }
    }

    fn strs(&mut self, all: &Vec<String>)
        requires
            old(self).wf(),
        ensures
            final(self).wf(),
            forall|rest: Seq<u64>| #[trigger]
                (old(self).words@ + text_list(all@, rest)) == final(self).words@ + rest,
    {
        let ghost before = self.words@;
        self.u64(all.len() as u64);
        let mut i: usize = 0;
        while i < all.len()
            invariant
                i <= all@.len(),
                self.wf(),
                forall|rest: Seq<u64>| #[trigger]
                    (before + text_list(all@, rest)) == self.words@ + texts(all@, i as int, rest),
            decreases all@.len() - i,
        {
            let ghost mid = self.words@;
            self.str(all[i].as_str());
            proof {
                assert forall|rest: Seq<u64>| #[trigger]
                    (before + text_list(all@, rest)) == self.words@ + texts(
                        all@,
                        i + 1,
                        rest,
                    ) by {
                    let k = texts(all@, i + 1, rest);
                    assert(mid + chars(all@[i as int]@, k) == self.words@ + k);
                }
            }
            i = i + 1;
        }
    }

    fn unit(&mut self, u: &UnitDef)
        requires
            old(self).wf(),
        ensures
            final(self).wf(),
            forall|rest: Seq<u64>| #[trigger]
                (old(self).words@ + unit_words(*u, rest)) == final(self).words@ + rest,
    {
        self.str(u.id.as_str());
        self.str(u.name.as_str());
        self.opt_str(&u.source);
        self.opt_str(&u.barracks);
        self.str(u.cost.resource.as_str());
        self.u32(u.cost.amount);
        let kind: u64 = match u.mvp_kind {
            UnitKind::Worker => 0,
            UnitKind::Soldier => 1,
            UnitKind::Scout => 2,
        };
        self.u64(kind);
        self.u32(u.mvp_alloy_cost);
        self.u32(u.mvp_train_ticks);
        self.u32(u.mvp_carry_capacity);
        self.u32(u.mvp_gather_ticks);
        self.u32(u.mvp_attack_ticks);
        self.float(u.mvp_attack_range);
        self.u32(u.speed);
        self.u32(u.offense);
        self.u32(u.defense);
        self.u32(u.armor);
        self.opt_str(&u.nemesis);
        self.bool(u.gathers);
        self.bool(u.builds);
    }

    fn units(&mut self, all: &Vec<UnitDef>)
        requires
            old(self).wf(),
        ensures
            final(self).wf(),
            forall|rest: Seq<u64>| #[trigger]
                (old(self).words@ + units_words(all@, 0, rest)) == final(self).words@ + rest,
    {
        let ghost before = self.words@;
        let mut i: usize = 0;
        while i < all.len()
            invariant
                i <= all@.len(),
                self.wf(),
                forall|rest: Seq<u64>| #[trigger]
                    (before + units_words(all@, 0, rest)) == self.words@ + units_words(
                        all@,
                        i as int,
                        rest,
                    ),
            decreases all@.len() - i,
        {
            let ghost mid = self.words@;
            self.unit(&all[i]);
            proof {
                assert forall|rest: Seq<u64>| #[trigger]
                    (before + units_words(all@, 0, rest)) == self.words@ + units_words(
                        all@,
                        i + 1,
                        rest,
                    ) by {
                    let k = units_words(all@, i + 1, rest);
                    assert(mid + unit_words(all@[i as int], k) == self.words@ + k);
                }
            }
            i = i + 1;
        }
    }

    fn building(&mut self, b: &BuildingDef)
        requires
            old(self).wf(),
        ensures
            final(self).wf(),
            forall|rest: Seq<u64>| #[trigger]
                (old(self).words@ + building_words(*b, rest)) == final(self).words@ + rest,
    {
        self.str(b.id.as_str());
        self.str(b.name.as_str());
        self.u32(b.alloy_cost);
        self.strs(&b.produces);
        self.bool(b.dropoff);
        self.bool(b.victory);
        self.u32(b.mvp_defense);
        self.u32(b.mvp_armor);
    }

    fn buildings(&mut self, all: &Vec<BuildingDef>)
        requires
            old(self).wf(),
        ensures
            final(self).wf(),
            forall|rest: Seq<u64>| #[trigger]
                (old(self).words@ + buildings_words(all@, 0, rest)) == final(self).words@ + rest,
    {
        let ghost before = self.words@;
        let mut i: usize = 0;
        while i < all.len()
            invariant
                i <= all@.len(),
                self.wf(),
                forall|rest: Seq<u64>| #[trigger]
                    (before + buildings_words(all@, 0, rest)) == self.words@ + buildings_words(
                        all@,
                        i as int,
                        rest,
                    ),
            decreases all@.len() - i,
        {
            let ghost mid = self.words@;
            self.building(&all[i]);
            proof {
                assert forall|rest: Seq<u64>| #[trigger]
                    (before + buildings_words(all@, 0, rest)) == self.words@ + buildings_words(
                        all@,
                        i + 1,
                        rest,
                    ) by {
                    let k = buildings_words(all@, i + 1, rest);
                    assert(mid + building_words(all@[i as int], k) == self.words@ + k);
                }
            }
            i = i + 1;
        }
    }

    fn combat(&mut self, c: &CombatDef)
        requires
            old(self).wf(),
        ensures
            final(self).wf(),
            forall|rest: Seq<u64>| #[trigger]
                (old(self).words@ + combat_words(*c, rest)) == final(self).words@ + rest,
    {
        self.u32(c.hp_per_defense);
        self.u32(c.damage_per_offense);
        self.u32(c.mitigation_per_armor);
        self.float(c.speed_per_point);
        self.float(c.engage_range);
        self.float(c.pursue_range);
        self.u32(c.max_stat);
        self.u32(c.building_hp_per_defense);
    }

    fn army(&mut self, all: &Vec<ArmyItem>)
        requires
            old(self).wf(),
        ensures
            final(self).wf(),
            forall|rest: Seq<u64>| #[trigger]
                (old(self).words@ + army_words(all@, 0, rest)) == final(self).words@ + rest,
    {
        let ghost before = self.words@;
        let mut i: usize = 0;
        while i < all.len()
            invariant
                i <= all@.len(),
                self.wf(),
                forall|rest: Seq<u64>| #[trigger]
                    (before + army_words(all@, 0, rest)) == self.words@ + army_words(
                        all@,
                        i as int,
                        rest,
                    ),
            decreases all@.len() - i,
        {
            let ghost mid = self.words@;
            self.str(all[i].unit.as_str());
            let ghost named = self.words@;
            self.u32(all[i].count);
            proof {
                assert forall|rest: Seq<u64>| #[trigger]
                    (before + army_words(all@, 0, rest)) == self.words@ + army_words(
                        all@,
                        i + 1,
                        rest,
                    ) by {
                    let k = army_words(all@, i + 1, rest);
                    let n = word(all@[i as int].count as u64, k);
                    assert(mid + chars(all@[i as int].unit@, n) == named + n);
                    assert(named + n == self.words@ + k);
                }
            }
            i = i + 1;
        }
    }

    fn ai(&mut self, a: &AiDef)
        requires
            old(self).wf(),
        ensures
            final(self).wf(),
            forall|rest: Seq<u64>| #[trigger]
                (old(self).words@ + ai_words(*a, rest)) == final(self).words@ + rest,
    {
        self.u32(a.think_interval_ticks);
        self.u32(a.worker_target);
        self.str(a.barracks.as_str());
        self.u32(a.barracks_at_tick);
        self.float(a.barracks_offset);
        self.u32(a.attack_at_army);
        self.u32(a.attack_interval_ticks);
        self.float(a.attack_spread);
        self.u64(a.army.len() as u64);
        self.army(&a.army);
    }

    fn resource(&mut self, r: &ResourceDef)
        requires
            old(self).wf(),
        ensures
            final(self).wf(),
            forall|rest: Seq<u64>| #[trigger]
                (old(self).words@ + resource_words(*r, rest)) == final(self).words@ + rest,
    {
        self.str(r.id.as_str());
        self.str(r.name.as_str());
        self.str(r.domain.as_str());
        self.str(r.building.as_str());
        let a: u64 = match r.acquisition {
            Acquisition::Mined => 0,
            Acquisition::Grown => 1,
            Acquisition::Channeled => 2,
        };
        self.u64(a);
        self.strs(&r.powers);
    }

    fn resources(&mut self, all: &Vec<ResourceDef>)
        requires
            old(self).wf(),
        ensures
            final(self).wf(),
            forall|rest: Seq<u64>| #[trigger]
                (old(self).words@ + resources_words(all@, 0, rest)) == final(self).words@ + rest,
    {
        let ghost before = self.words@;
        let mut i: usize = 0;
        while i < all.len()
            invariant
                i <= all@.len(),
                self.wf(),
                forall|rest: Seq<u64>| #[trigger]
                    (before + resources_words(all@, 0, rest)) == self.words@ + resources_words(
                        all@,
                        i as int,
                        rest,
                    ),
            decreases all@.len() - i,
        {
            let ghost mid = self.words@;
            self.resource(&all[i]);
            proof {
                assert forall|rest: Seq<u64>| #[trigger]
                    (before + resources_words(all@, 0, rest)) == self.words@ + resources_words(
                        all@,
                        i + 1,
                        rest,
                    ) by {
                    let k = resources_words(all@, i + 1, rest);
                    assert(mid + resource_words(all@[i as int], k) == self.words@ + k);
                }
            }
            i = i + 1;
        }
    }

    fn economy(&mut self, e: &EconomyDef)
        requires
            old(self).wf(),
        ensures
            final(self).wf(),
            forall|rest: Seq<u64>| #[trigger]
                (old(self).words@ + economy_words(*e, rest)) == final(self).words@ + rest,
    {
        self.str(e.currency.as_str());
        self.u32(e.starting_alloy);
        self.float(e.gather_range);
        self.float(e.deposit_range);
    }

    fn openings(&mut self, all: &Vec<Opening>)
        requires
            old(self).wf(),
        ensures
            final(self).wf(),
            forall|rest: Seq<u64>| #[trigger]
                (old(self).words@ + openings_words(all@, 0, rest)) == final(self).words@ + rest,
    {
        let ghost before = self.words@;
        let mut i: usize = 0;
        while i < all.len()
            invariant
                i <= all@.len(),
                self.wf(),
                forall|rest: Seq<u64>| #[trigger]
                    (before + openings_words(all@, 0, rest)) == self.words@ + openings_words(
                        all@,
                        i as int,
                        rest,
                    ),
            decreases all@.len() - i,
        {
            let ghost mid = self.words@;
            self.str(all[i].building.as_str());
            let ghost named = self.words@;
            self.u32(all[i].at_tick);
            let ghost timed = self.words@;
            self.float(all[i].offset);
            proof {
                assert forall|rest: Seq<u64>| #[trigger]
                    (before + openings_words(all@, 0, rest)) == self.words@ + openings_words(
                        all@,
                        i + 1,
                        rest,
                    ) by {
                    let k = openings_words(all@, i + 1, rest);
                    let n = word(all@[i as int].offset.bits as u64, k);
                    let m = word(all@[i as int].at_tick as u64, n);
                    assert(mid + chars(all@[i as int].building@, m) == named + m);
                    assert(named + m == timed + n);
                    assert(timed + n == self.words@ + k);
                }
            }
            i = i + 1;
        }
    }

    fn strategy(&mut self, s: &StrategyDef)
        requires
            old(self).wf(),
        ensures
            final(self).wf(),
            forall|rest: Seq<u64>| #[trigger]
                (old(self).words@ + strategy_words(*s, rest)) == final(self).words@ + rest,
    {
        self.str(s.id.as_str());
        self.u32(s.think_interval_ticks);
        self.u32(s.worker_target);
        self.u32(s.attack_at_army);
        self.u32(s.attack_interval_ticks);
        self.float(s.attack_spread);
        self.u64(s.barracks.len() as u64);
        self.openings(&s.barracks);
        self.u64(s.army.len() as u64);
        self.army(&s.army);
    }

    fn strategies(&mut self, all: &Vec<StrategyDef>)
        requires
            old(self).wf(),
        ensures
            final(self).wf(),
            forall|rest: Seq<u64>| #[trigger]
                (old(self).words@ + strategies_words(all@, 0, rest)) == final(self).words@ + rest,
    {
        let ghost before = self.words@;
        let mut i: usize = 0;
        while i < all.len()
            invariant
                i <= all@.len(),
                self.wf(),
                forall|rest: Seq<u64>| #[trigger]
                    (before + strategies_words(all@, 0, rest)) == self.words@ + strategies_words(
                        all@,
                        i as int,
                        rest,
                    ),
            decreases all@.len() - i,
        {
            let ghost mid = self.words@;
            self.strategy(&all[i]);
            proof {
                assert forall|rest: Seq<u64>| #[trigger]
                    (before + strategies_words(all@, 0, rest)) == self.words@ + strategies_words(
                        all@,
                        i + 1,
                        rest,
                    ) by {
                    let k = strategies_words(all@, i + 1, rest);
                    assert(mid + strategy_words(all@[i as int], k) == self.words@ + k);
                }
            }
            i = i + 1;
        }
    }

    /// The hash as it is reported. Never zero: zero means that nothing was
    /// stamped.
    pub fn finish(&self) -> (r: u64)
        ensures
            r == reported(self.state()),
            r != ContentFingerprint::UNKNOWN,
    {
        if self.h == 0 {
            1
        } else {
            self.h
        }
    }
}

// ---- the fingerprint --------------------------------------------------------

/// A 64-bit hash of a content set and a short summary for people. Only the
/// hash is compared.
#[derive(Debug, Clone)]
pub struct ContentFingerprint {
    hash: u64,
    summary: String,
}

/// The ids, or a dash where there are none.
pub open spec fn id_text(ids: Seq<Seq<char>>) -> Seq<char> {
    if ids.len() == 0 {
        "-"@
    } else {
        text::joined(ids, ","@)
    }
}

/// The summary of a content set.
pub open spec fn summary_text(c: Content) -> Seq<char> {
    text::dec(c.units@.len()) + " units ["@ + id_text(
        crate::sim::content::lookup::unit_ids(c.units@),
    ) + "], "@ + text::dec(c.buildings@.len()) + " buildings ["@ + id_text(
        crate::sim::content::lookup::building_ids(c.buildings@),
    ) + "], "@ + text::dec(c.resources@.len()) + " resources"@
}

fn id_line(ids: &Vec<String>) -> (r: String)
    ensures
        r@ == id_text(text::views(ids@)),
{
    assert(text::views(ids@).len() == ids@.len());
    if ids.len() == 0 {
        "-".to_owned()
    } else {
        text::join(ids, ",")
    }
}

impl ContentFingerprint {
    /// The hash of "no content was ever stamped here".
    pub const UNKNOWN: u64 = 0;

    pub closed spec fn stamp(&self) -> u64 {
        self.hash
    }

    pub closed spec fn label(&self) -> Seq<char> {
        self.summary@
    }

    /// The fingerprint of nothing.
    pub fn unknown() -> (r: Self)
        ensures
            r.stamp() == 0,
            r.label() == Seq::<char>::empty(),
    {
        ContentFingerprint { hash: 0, summary: String::new() }
    }

    /// A fingerprint read back from where it was written.
    pub fn from_parts(hash: u64, summary: String) -> (r: Self)
        ensures
            r.stamp() == hash,
            r.label() == summary@,
    {
        ContentFingerprint { hash, summary }
    }

    pub fn hash(&self) -> (r: u64)
        ensures
            r == self.stamp(),
    {
        self.hash
    }

    pub fn summary(&self) -> (r: &str)
        ensures
            r@ == self.label(),
    {
        self.summary.as_str()
    }

    pub fn is_known(&self) -> (r: bool)
        ensures
            r == (self.stamp() != 0),
    {
        self.hash != 0
    }

    /// The same fingerprint again.
    pub fn copied(&self) -> (r: Self)
        ensures
            r.stamp() == self.stamp(),
            r.label() == self.label(),
    {
        ContentFingerprint { hash: self.hash, summary: self.summary.clone() }
    }

    /// The fingerprint as people read it.
    pub open spec fn shown(&self) -> Seq<char> {
        if self.stamp() != 0 {
            text::hex(self.stamp() as nat, 16) + " ("@ + self.label() + ")"@
        } else {
            "unknown"@
        }
    }

    /// The fingerprint as people read it.
    pub fn describe(&self) -> (r: String)
        ensures
            r@ == self.shown(),
    {
        if self.hash != 0 {
            let mut s: String = String::new();
            text::push_hex(&mut s, self.hash, 16);
            s.append(" (");
            s.append(self.summary.as_str());
            s.append(")");
            assert(s@ =~= self.shown());
            s
        } else {
            "unknown".to_owned()
        }
    }
}

impl Content {
    /// Fingerprint of this whole content set: every field of every definition,
    /// in order.
    pub fn fingerprint(&self) -> (r: ContentFingerprint)
        ensures
            r.stamp() == content_hash(*self),
            r.stamp() != 0,
            r.label() == summary_text(*self),
    {
        let mut h = Fnv::new();
        proof {
            assert(h.words@ + stream(*self) =~= stream(*self));
        }
        h.str("units");
        h.u64(self.units.len() as u64);
        h.units(&self.units);
        h.str("buildings");
        h.u64(self.buildings.len() as u64);
        h.buildings(&self.buildings);
        assert(h.words@ + combat_section(*self) == stream(*self));
        h.str("combat");
        h.combat(&self.combat);
        h.str("nemesis");
        h.float(self.nemesis_bonus.damage_mult);
        h.bool(self.nemesis_bonus.ignore_armor);
        h.str("ai");
        h.ai(&self.ai);
        assert(h.words@ + resources_section(*self) == stream(*self));
        h.str("resources");
        h.u64(self.resources.len() as u64);
        h.resources(&self.resources);
        h.str("mvp_active");
        h.strs(&self.mvp_active);
        assert(h.words@ + economy_section(*self) == stream(*self));
        h.str("economy");
        h.economy(&self.economy);
        assert(h.words@ + strategies_section(*self) == stream(*self));
        if self.is_scripted() {
            h.str("strategies");
            h.u64(self.strategies.len() as u64);
            h.strategies(&self.strategies);
            h.str(self.default_strategy.as_str());
        }
        proof {
            assert(h.words@ + Seq::<u64>::empty() == stream(*self));
            assert(h.words@ + Seq::<u64>::empty() =~= h.words@);
        }
        let mut s: String = String::new();
        text::push_dec(&mut s, self.units.len() as u64);
        s.append(" units [");
        s.append(id_line(&self.unit_id_list()).as_str());
        s.append("], ");
        text::push_dec(&mut s, self.buildings.len() as u64);
        s.append(" buildings [");
        s.append(id_line(&self.building_id_list()).as_str());
        s.append("], ");
        text::push_dec(&mut s, self.resources.len() as u64);
        s.append(" resources");
        assert(s@ =~= summary_text(*self));
        ContentFingerprint { hash: h.finish(), summary: s }
    }
}

} // verus!
