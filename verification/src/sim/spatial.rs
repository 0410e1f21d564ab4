//! Factions, the deterministic generator and the nearest-enemy scan.
//!
//! Ties (equal squared distance) always resolve to the smallest unit index, so
//! a scan is a function of its inputs alone.

use vstd::prelude::*;

use vstd::arithmetic::power2::pow2;
use vstd::arithmetic::power2::lemma_pow2_adds;
use vstd::arithmetic::power2::lemma_pow2_pos;
use vstd::arithmetic::power2::lemma_pow2_unfold;

use crate::float::units_decide;
use crate::float::{F32, Point};
use crate::sim::near;
use crate::sim::near::{nearest_of, Candidate};

verus! {

/// Which side a unit fights for.
#[derive(Clone, Copy, PartialEq, Eq, Structural, Debug, Hash)]
pub enum Faction {
    A,
    B,
}

impl Faction {
    /// The slot a faction's numbers stand in, in every per-side array.
    pub open spec fn slot(self) -> int {
        match self {
            Faction::A => 0,
            Faction::B => 1,
        }
    }

    /// The other side.
    pub open spec fn foe(self) -> Faction {
        match self {
            Faction::A => Faction::B,
            Faction::B => Faction::A,
        }
    }
}

/// The slot of a faction: `A` before `B`.
pub fn faction_slot(f: Faction) -> (r: usize)
    ensures
        r == f.slot(),
        r < 2,
{
    match f {
        Faction::A => 0,
        Faction::B => 1,
    }
}

// ---- deterministic generator ------------------------------------------------

/// The increment of the generator's state.
pub const GOLDEN: u64 = 0x9E37_79B9_7F4A_7C15;

/// The splitmix64 finalizer.
pub open spec fn mix(z0: u64) -> u64 {
    let z1 = mix_step(z0, 30, 0xBF58_476D_1CE4_E5B9);
    let z2 = mix_step(z1, 27, 0x94D0_49BB_1331_11EB);
    z2 ^ (z2 >> 31)
}

pub open spec fn mix_step(z: u64, shift: u64, factor: u64) -> u64 {
    wrap_mul((z ^ (z >> shift)), factor)
}

/// Multiplication modulo 2^64.
pub open spec fn wrap_mul(a: u64, b: u64) -> u64 {
    ((a as int * b as int) % 0x1_0000_0000_0000_0000) as u64
}

/// Addition modulo 2^64.
pub open spec fn wrap_add(a: u64, b: u64) -> u64 {
    ((a as int + b as int) % 0x1_0000_0000_0000_0000) as u64
}

/// The generator's state after `n` draws from `state`.
pub open spec fn state_after(state: u64, n: nat) -> u64
    decreases n,
{
    if n == 0 {
        state
    } else {
        wrap_add(state_after(state, (n - 1) as nat), GOLDEN)
    }
}

/// The `n`-th value (from 0) drawn from `state`.
pub open spec fn draw(state: u64, n: nat) -> u64 {
    mix(state_after(state, n + 1))
}

/// Drawing `n` and then `m` values is drawing `n + m`.
pub proof fn lemma_state_after_adds(state: u64, n: nat, m: nat)
    ensures
        state_after(state_after(state, n), m) == state_after(state, n + m),
    decreases m,
{
    if m > 0 {
        lemma_state_after_adds(state, n, (m - 1) as nat);
    }
}

/// The binary32 number `k / 2^24`, where `k` is the top 24 bits of `x`.
pub open spec fn unit_f32(x: u64) -> F32 {
    choose|f: F32| #[trigger] f.units() == (x >> 40) as nat * pow2(125)
        && f.finite() && !f.negative()
}

/// Mix one 64-bit word.
pub fn finalize(z0: u64) -> (r: u64)
    ensures
        r == mix(z0),
{
    let z1: u64 = (z0 ^ (z0 >> 30)).wrapping_mul(0xBF58_476D_1CE4_E5B9);
    let z2: u64 = (z1 ^ (z1 >> 27)).wrapping_mul(0x94D0_49BB_1331_11EB);
    z2 ^ (z2 >> 31)
}

/// A splitmix64 generator: the same seed always yields the same stream.
#[derive(Clone, Copy, PartialEq, Eq, Structural, Debug)]
pub struct SplitMix64 {
    state: u64,
}

impl View for SplitMix64 {
    type V = u64;

    closed spec fn view(&self) -> u64 {
        self.state
    }
}

impl SplitMix64 {
    pub fn new(seed: u64) -> (r: Self)
        ensures
            r@ == seed,
    {
        SplitMix64 { state: seed }
    }

    /// The generator's state.
    pub fn state(&self) -> (r: u64)
        ensures
            r == self@,
    {
        self.state
    }

    /// Next raw 64-bit value (advances the state).
    pub fn next_u64(&mut self) -> (r: u64)
        ensures
            final(self)@ == state_after(old(self)@, 1),
            r == draw(old(self)@, 0),
    {
        self.state = self.state.wrapping_add(GOLDEN);
        proof {
            reveal_with_fuel(state_after, 2);
        }
        finalize(self.state)
    }

    /// Uniform number in `[0, 1)`, 24 bits of it (advances the state).
    pub fn next_f32(&mut self) -> (r: F32)
        ensures
            final(self)@ == state_after(old(self)@, 1),
            r == unit_f32(draw(old(self)@, 0)),
            r.units() == (draw(old(self)@, 0) >> 40) as nat * pow2(125),
            !r.negative(),
            r.less(F32::one()),
    {
        let x: u64 = self.next_u64();
        let k: u64 = x >> 40;
        assert(k < 0x100_0000) by (bit_vector)
            requires
                k == x >> 40,
        ;
        let r: F32 = ratio_24(k as u32);
        proof {
            let f = unit_f32(x);
            assert(r.units() == (x >> 40) as nat * pow2(125) && r.finite() && !r.negative());
            units_decide(r, f);
        }
        r
    }
}

/// The number `k / 2^24`, exactly.
fn ratio_24(k: u32) -> (r: F32)
    requires
        k < 0x100_0000,
    ensures
        r.units() == k as nat * pow2(125),
        r.finite(),
        !r.negative(),
        r.less(F32::one()),
{
    if k == 0 {
        return F32 { bits: 0 };
    }
    let mut j: u32 = 0;
    let mut top: u32 = 1;
    let mut scale: u32 = 0x80_0000;
    proof {
        vstd::arithmetic::power2::lemma2_to64();
    }
    while j < 23 && k >= 2 * top
        invariant
            j <= 23,
            top == pow2(j as nat),
            scale == pow2((23 - j) as nat),
            top * scale == 0x80_0000,
            top <= k < 0x100_0000,
            1 <= top <= 0x80_0000,
        decreases 23 - j,
    {
        proof {
            lemma_pow2_unfold((j + 1) as nat);
            lemma_pow2_unfold((23 - j) as nat);
            lemma_pow2_pos((23 - j - 1) as nat);
            let half = pow2((23 - j - 1) as nat);
            assert(scale == 2 * half);
            assert((2 * top) * half == 0x80_0000) by (nonlinear_arith)
                requires
                    top * scale == 0x80_0000,
                    scale == 2 * half,
            ;
            assert(2 * top <= 0x80_0000) by (nonlinear_arith)
                requires
                    (2 * top) * half == 0x80_0000,
                    half >= 1,
                    top >= 1,
            ;
        }
        j = j + 1;
        top = top * 2;
        scale = scale / 2;
    }
    proof {
        if j == 23 {
            vstd::arithmetic::power2::lemma2_to64();
        }
        assert(k < 2 * top);
        assert(k * scale - top * scale == (k - top) * scale) by (nonlinear_arith);
        assert((k - top) * scale < 0x80_0000 && (k - top) * scale >= 0) by (nonlinear_arith)
            requires
                top <= k < 2 * top,
                top * scale == 0x80_0000,
                scale >= 1,
        ;
    }
    let m: u32 = (k - top) * scale;
    let bits: u32 = (j + 103) * 0x80_0000 + m;
    let r = F32 { bits };
    proof {
        let e = r.mag() / 0x80_0000;
        assert(e == j + 103);
        assert(r.mag() % 0x80_0000 == m);
        let p = pow2((j + 102) as nat);
        let s: nat = scale as nat;
        lemma_pow2_adds((23 - j) as nat, (j + 102) as nat);
        assert(s * p == pow2(125));
        assert((m + 0x80_0000) as nat * p == k as nat * pow2(125)) by (nonlinear_arith)
            requires
                m + 0x80_0000 == k * s,
                s * p == pow2(125),
        ;
    }
    r
}

// ---- laws of the generator ----------------------------------------------------

proof fn lemma_odd_factor(a: u64, b: u64, c: u64, inverse: u64)
    requires
        (c as int * inverse as int) % 0x1_0000_0000_0000_0000 == 1,
        wrap_mul(a, c) == wrap_mul(b, c),
    ensures
        a == b,
{
    lemma_undo_factor(a, c, inverse);
    lemma_undo_factor(b, c, inverse);
}

proof fn lemma_undo_factor(a: u64, c: u64, inverse: u64)
    requires
        (c as int * inverse as int) % 0x1_0000_0000_0000_0000 == 1,
    ensures
        wrap_mul(wrap_mul(a, c), inverse) == a,
{
    let m = 0x1_0000_0000_0000_0000int;
    let (x, y, z) = (a as int, c as int, inverse as int);
    vstd::arithmetic::div_mod::lemma_mul_mod_noop_left(x * y, z, m);
    vstd::arithmetic::div_mod::lemma_mul_mod_noop_right(x, y * z, m);
    assert(x * y * z == x * (y * z)) by (nonlinear_arith);
    assert(x * 1 == x);
}

/// Different words are mixed into different words.
pub proof fn mix_is_injective(x: u64, y: u64)
    requires
        mix(x) == mix(y),
    ensures
        x == y,
{
    let (c1, c2) = (0xBF58_476D_1CE4_E5B9u64, 0x94D0_49BB_1331_11EBu64);
    let (x1, y1) = (mix_step(x, 30, c1), mix_step(y, 30, c1));
    let (x2, y2) = (mix_step(x1, 27, c2), mix_step(y1, 27, c2));
    assert(x2 == y2) by (bit_vector)
        requires
            x2 ^ (x2 >> 31) == y2 ^ (y2 >> 31),
    ;
    assert((0x94D0_49BB_1331_11EBint * 0x3196_42B2_D24D_8EC3int) % 0x1_0000_0000_0000_0000 == 1);
    lemma_odd_factor(x1 ^ (x1 >> 27), y1 ^ (y1 >> 27), c2, 0x3196_42B2_D24D_8EC3);
    assert(x1 == y1) by (bit_vector)
        requires
            x1 ^ (x1 >> 27) == y1 ^ (y1 >> 27),
    ;
    assert((0xBF58_476D_1CE4_E5B9int * 0x96DE_1B17_3F11_9089int) % 0x1_0000_0000_0000_0000 == 1);
    lemma_odd_factor(x ^ (x >> 30), y ^ (y >> 30), c1, 0x96DE_1B17_3F11_9089);
    assert(x == y) by (bit_vector)
        requires
            x ^ (x >> 30) == y ^ (y >> 30),
    ;
}

proof fn lemma_state_value(state: u64, n: nat)
    ensures
        state_after(state, n) as int == (state as int + n * (GOLDEN as int))
            % 0x1_0000_0000_0000_0000,
    decreases n,
{
    let m = 0x1_0000_0000_0000_0000int;
    let g = GOLDEN as int;
    if n > 0 {
        lemma_state_value(state, (n - 1) as nat);
        let p = state as int + (n - 1) * g;
        assert(state as int + n * g == p + g) by (nonlinear_arith)
            requires
                p == state as int + (n - 1) * g,
        ;
        vstd::arithmetic::div_mod::lemma_add_mod_noop(p, g, m);
        assert(g % m == g);
        assert(p % m < m);
    } else {
        assert(0 * g == 0);
    }
}

/// A stream does not repeat a value within 2^64 draws.
pub proof fn draws_are_distinct(state: u64, i: nat, j: nat)
    requires
        i < 0x1_0000_0000_0000_0000,
        j < 0x1_0000_0000_0000_0000,
        draw(state, i) == draw(state, j),
    ensures
        i == j,
{
    mix_is_injective(state_after(state, i + 1), state_after(state, j + 1));
    lemma_state_value(state, i + 1);
    lemma_state_value(state, j + 1);
    let m = 0x1_0000_0000_0000_0000int;
    let g = GOLDEN as int;
    let s = state as int;
    let (a, b) = ((i + 1) * g, (j + 1) * g);
    vstd::arithmetic::div_mod::lemma_mod_equivalence(s + a, s + b, m);
    vstd::arithmetic::div_mod::lemma_mod_equivalence(a - g, b - g, m);
    assert(i * g == a - g) by (nonlinear_arith)
        requires
            a == (i + 1) * g,
    ;
    assert(j * g == b - g) by (nonlinear_arith)
        requires
            b == (j + 1) * g,
    ;
    assert((i * g) % m == (j * g) % m);
    assert((0x9E37_79B9_7F4A_7C15int * 0xF1DE_83E1_9937_733Dint) % 0x1_0000_0000_0000_0000 == 1);
    lemma_odd_factor(i as u64, j as u64, GOLDEN, 0xF1DE_83E1_9937_733D);
}

/// Streams with different seeds differ at every position.
pub proof fn streams_differ(a: u64, b: u64, i: nat)
    requires
        draw(a, i) == draw(b, i),
    ensures
        a == b,
{
    mix_is_injective(state_after(a, i + 1), state_after(b, i + 1));
    lemma_state_value(a, i + 1);
    lemma_state_value(b, i + 1);
    let m = 0x1_0000_0000_0000_0000int;
    let p = (i + 1) * (GOLDEN as int);
    vstd::arithmetic::div_mod::lemma_mod_equivalence(a as int + p, b as int + p, m);
    vstd::arithmetic::div_mod::lemma_mod_equivalence(a as int, b as int, m);
    vstd::arithmetic::div_mod::lemma_small_mod(a as nat, m as nat);
    vstd::arithmetic::div_mod::lemma_small_mod(b as nat, m as nat);
}

// ---- layouts ----------------------------------------------------------------

/// A unit of a layout.
#[derive(Clone, Copy, PartialEq, Eq, Structural, Debug)]
pub struct Unit {
    pub pos: Point,
    pub faction: Faction,
}

/// The side a coin falls on.
pub open spec fn coin(x: u64) -> Faction {
    if x & 1 == 0 {
        Faction::A
    } else {
        Faction::B
    }
}

/// The `i`-th unit of the layout of `seed`: two draws place it, a third picks
/// its side.
pub open spec fn layout_unit(seed: u64, i: int) -> Unit {
    Unit {
        pos: Point {
            x: unit_f32(draw(seed, (3 * i) as nat)),
            y: unit_f32(draw(seed, (3 * i + 1) as nat)),
        },
        faction: coin(draw(seed, (3 * i + 2) as nat)),
    }
}

/// A deterministic layout of `n` units, uniform in the unit square and split by
/// a fair coin.
pub fn random_layout(n: usize, seed: u64) -> (r: Vec<Unit>)
    ensures
        r@ == Seq::new(n as nat, |i: int| layout_unit(seed, i)),
{
    let mut rng = SplitMix64::new(seed);
    let mut out: Vec<Unit> = Vec::new();
    let mut i: usize = 0;
    while i < n
        invariant
            i <= n,
            rng@ == state_after(seed, (3 * i) as nat),
            out@ == Seq::new(i as nat, |j: int| layout_unit(seed, j)),
        decreases n - i,
    {
        let ghost at = rng@;
        let x: F32 = rng.next_f32();
        let y: F32 = rng.next_f32();
        let c: u64 = rng.next_u64();
        let faction = if c & 1 == 0 {
            Faction::A
        } else {
            Faction::B
        };
        proof {
            lemma_state_after_adds(at, 1, 1);
            lemma_state_after_adds(at, 2, 1);
            lemma_state_after_adds(seed, (3 * i) as nat, 1);
            lemma_state_after_adds(seed, (3 * i) as nat, 2);
            lemma_state_after_adds(seed, (3 * i) as nat, 3);
        }
        out.push(Unit { pos: Point { x, y }, faction });
        assert(out@ =~= Seq::new((i + 1) as nat, |j: int| layout_unit(seed, j)));
        i = i + 1;
    }
    out
}

// ---- nearest enemy ----------------------------------------------------------

/// The units as enemies of unit `i`, given how far each is.
pub open spec fn enemies(units: Seq<Unit>, squared: Seq<F32>, i: int) -> Seq<Candidate> {
    Seq::new(
        units.len(),
        |j: int|
            Candidate {
                squared: squared[j],
                key: j as u64,
                open: units[j].faction != units[i].faction,
            },
    )
}

/// How many of the first `k` candidates are open.
pub open spec fn open_count(all: Seq<Candidate>, k: int) -> int
    decreases k,
{
    if k <= 0 {
        0
    } else {
        open_count(all, k - 1) + if all[k - 1].open {
            1int
        } else {
            0int
        }
    }
}

/// Nearest enemy of unit `i` by the naive scan. `squared` holds the squared
/// distance from unit `i` to each. Equal distances go to the smallest index.
pub fn brute_force_nearest_enemy(units: &Vec<Unit>, squared: &Vec<F32>, i: usize) -> (r: Option<
    usize,
>)
    requires
        i < units@.len(),
        squared@.len() == units@.len(),
    ensures
        r is Some == near::nearest(enemies(units@, squared@, i as int)) is Some,
        r matches Some(j) ==> near::nearest(enemies(units@, squared@, i as int)) == Some(j as int)
            && j < units@.len() && units@[j as int].faction != units@[i as int].faction,
{
    brute_force_nearest_enemy_counted(units, squared, i).0
}

/// As [`brute_force_nearest_enemy`], with the number of distances looked at.
pub fn brute_force_nearest_enemy_counted(units: &Vec<Unit>, squared: &Vec<F32>, i: usize) -> (r: (
    Option<usize>,
    usize,
))
    requires
        i < units@.len(),
        squared@.len() == units@.len(),
    ensures
        r.0 is Some == near::nearest(enemies(units@, squared@, i as int)) is Some,
        r.0 matches Some(j) ==> near::nearest(enemies(units@, squared@, i as int)) == Some(
            j as int,
        ) && j < units@.len() && units@[j as int].faction != units@[i as int].faction,
        r.1 == open_count(enemies(units@, squared@, i as int), units@.len() as int),
{
    let ghost all = enemies(units@, squared@, i as int);
    let me: Faction = units[i].faction;
    let mut list: Vec<Candidate> = Vec::new();
    let mut work: usize = 0;
    let mut j: usize = 0;
    while j < units.len()
        invariant
            j <= units@.len(),
            i < units@.len(),
            me == units@[i as int].faction,
            squared@.len() == units@.len(),
            all == enemies(units@, squared@, i as int),
            list@ == all.take(j as int),
            work <= j,
            work == open_count(all, j as int),
        decreases units@.len() - j,
    {
        let open: bool = units[j].faction != me;
        if open {
            work = work + 1;
        }
        list.push(Candidate { squared: squared[j], key: j as u64, open });
        assert(list@ =~= all.take(j + 1));
        j = j + 1;
    }
    assert(list@ =~= all);
    (nearest_of(&list), work)
}

/// A unit has a nearest enemy exactly when somebody is on the other side; where
/// every distance is a number, it is an enemy that none is nearer than, the
/// first of those.
pub proof fn the_nearest_enemy_is_nearest(units: Seq<Unit>, squared: Seq<F32>, i: int)
    requires
        0 <= i < units.len() <= u64::MAX,
        squared.len() == units.len(),
        forall|j: int| 0 <= j < squared.len() ==> !(#[trigger] squared[j]).nan(),
    ensures
        ({
            let r = near::nearest(enemies(units, squared, i));
            &&& r is None <==> forall|j: int|
                0 <= j < units.len() ==> (#[trigger] units[j]).faction == units[i].faction
            &&& r matches Some(b) ==> forall|j: int|
                0 <= j < units.len() && (#[trigger] units[j]).faction != units[i].faction
                    ==> squared[b].at_most(squared[j]) && (squared[b].same(squared[j]) ==> b <= j)
        }),
{
    let all = enemies(units, squared, i);
    assert forall|j: int| 0 <= j < all.len() implies !(#[trigger] all[j]).squared.nan() by {
        assert(!squared[j].nan());
    }
    near::the_choice_is_nearest(all);
    assert forall|j: int| 0 <= j < units.len() implies (all[j].open <==> (
    #[trigger] units[j]).faction != units[i].faction) by {}
    match near::nearest(all) {
        Some(b) => {
            assert forall|j: int|
                0 <= j < units.len() && (#[trigger] units[j]).faction
                    != units[i].faction implies squared[b].at_most(squared[j]) && (squared[b].same(
                squared[j],
            ) ==> b <= j) by {
                assert(all[j].open);
            }
            assert(all[b].open);
            assert(units[b].faction != units[i].faction);
        },
        None => {
            assert forall|j: int| 0 <= j < units.len() implies (#[trigger] units[j]).faction
                == units[i].faction by {
                assert(!all[j].open);
            }
        },
    }
}

} // verus!
