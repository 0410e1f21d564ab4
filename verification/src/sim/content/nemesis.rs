//! The nemesis rule: the bonus a unit has against its prey.

use vstd::arithmetic::power2::lemma_pow2_adds;
use vstd::arithmetic::power2::lemma_pow2_pos;
use vstd::arithmetic::power2::lemma_pow2_unfold;
use vstd::arithmetic::power2::pow2;
use vstd::prelude::*;

use crate::float::F32;

verus! {

/// The nemesis rule.
#[derive(Debug, Clone, Copy)]
pub struct NemesisBonus {
    /// The multiplier as the data states it. Read once, here; damage per hit
    /// uses [`NemesisBonus::mult_milli`].
    pub damage_mult: F32,
    pub ignore_armor: bool,
}

/// A thousand times the absolute value of a finite number, rounded to the
/// nearest integer, halves away from zero.
pub open spec fn rounded_milli(f: F32) -> nat {
    (f.units() * 2_000 + pow2(149)) / pow2(150)
}

impl NemesisBonus {
    /// Denominator of the integer multiplier: the bonus is held as per-mille.
    pub const MULT_SCALE: u32 = 1_000;

    /// The multiplier as an integer per-mille, where it is finite, rounds to no
    /// less than zero and fits.
    pub open spec fn milli(&self) -> Option<nat> {
        let r = rounded_milli(self.damage_mult);
        if self.damage_mult.finite() && r <= u32::MAX && !(self.damage_mult.negative() && r > 0) {
            Some(r)
        } else {
            None
        }
    }

    /// The multiplier as an integer per-mille. The largest integer stands in
    /// for one that [`NemesisBonus::milli_exact`] refuses.
    pub fn mult_milli(&self) -> (r: u32)
        ensures
            self.milli() matches Some(m) ==> r == m,
            self.milli() is None ==> r == u32::MAX,
    {
        match self.milli_exact() {
            Some(m) => m,
            None => u32::MAX,
        }
    }

    /// The multiplier times a thousand, rounded, when it is finite and fits.
    pub fn milli_exact(&self) -> (r: Option<u32>)
        ensures
            r is Some == self.milli() is Some,
            r matches Some(m) ==> self.milli() == Some(m as nat),
    {
        let f: F32 = self.damage_mult;
        if !f.is_finite() {
            return None;
        }
        let mag: u32 = f.bits % 0x8000_0000;
        let e: u32 = mag / 0x80_0000;
        let m: u32 = mag % 0x80_0000;
        // units = sig * 2^shift
        let sig: u64 = if e == 0 {
            m as u64
        } else {
            (m + 0x80_0000) as u64
        };
        let shift: u32 = if e == 0 {
            0
        } else {
            e - 1
        };
        proof {
            vstd::arithmetic::power2::lemma2_to64();
            assert(f.units() == sig * pow2(shift as nat)) by {
                if e == 0 {
                    assert(sig * 1 == sig);
                }
            }
        }
        let x: u64 = sig * 2_000;
        let r: u64 = if shift >= 150 {
            proof {
                lemma_huge(sig as nat, shift as nat);
            }
            0x1_0000_0000
        } else {
            proof {
                lemma_scaled(x as nat, shift as nat);
                assert(f.units() * 2_000 == x * pow2(shift as nat)) by (nonlinear_arith)
                    requires
                        f.units() == sig * pow2(shift as nat),
                        x == sig * 2_000,
                ;
            }
            let t: u32 = 149 - shift;
            if t >= 36 {
                proof {
                    lemma_tiny(x as nat, t as nat);
                }
                0
            } else {
                shifted_half(x, t)
            }
        };
        if r > 0xffff_ffff || (f.bits >= 0x8000_0000 && r > 0) {
            None
        } else {
            Some(r as u32)
        }
    }
}

/// `x / 2^(t + 1)`, rounded to the nearest, halves up.
fn shifted_half(x: u64, t: u32) -> (r: u64)
    requires
        t < 36,
        x < 0x10_0000_0000,
    ensures
        r == (x as nat + pow2(t as nat)) / pow2((t + 1) as nat),
{
    let mut p: u64 = 1;
    let mut i: u32 = 0;
    proof {
        vstd::arithmetic::power2::lemma2_to64();
    }
    while i < t
        invariant
            i <= t,
            t < 36,
            p == pow2(i as nat),
            p <= 0x8_0000_0000,
        decreases t - i,
    {
        proof {
            lemma_pow2_unfold((i + 1) as nat);
            vstd::arithmetic::power2::lemma2_to64();
            vstd::arithmetic::power2::lemma2_to64_rest();
            if i + 1 < 35 {
                vstd::arithmetic::power2::lemma_pow2_strictly_increases((i + 1) as nat, 35);
            }
        }
        p = p * 2;
        i = i + 1;
    }
    proof {
        lemma_pow2_unfold((t + 1) as nat);
        lemma_pow2_pos(t as nat);
    }
    (x + p) / (2 * p)
}

/// Scaling both sides by a power of two leaves a quotient.
proof fn lemma_scaled(x: nat, shift: nat)
    requires
        shift < 150,
    ensures
        (x * pow2(shift) + pow2(149)) / pow2(150) == (x + pow2((149 - shift) as nat)) / pow2(
            (150 - shift) as nat,
        ),
{
    let k = pow2(shift);
    let h = pow2((149 - shift) as nat);
    let d = pow2((150 - shift) as nat);
    lemma_pow2_adds(shift, (149 - shift) as nat);
    lemma_pow2_adds(shift, (150 - shift) as nat);
    lemma_pow2_pos(shift);
    lemma_pow2_pos((150 - shift) as nat);
    assert(x * k + pow2(149) == k * (x + h)) by (nonlinear_arith)
        requires
            pow2(149) == k * h,
    ;
    vstd::arithmetic::div_mod::lemma_div_multiples_vanish_quotient(
        k as int,
        x as int + h as int,
        d as int,
    );
}

proof fn lemma_tiny(x: nat, t: nat)
    requires
        t >= 36,
        x < 0x10_0000_0000,
    ensures
        (x + pow2(t)) / pow2(t + 1) == 0,
{
    lemma_pow2_unfold(t + 1);
    vstd::arithmetic::power2::lemma2_to64();
    vstd::arithmetic::power2::lemma2_to64_rest();
    if t > 36 {
        vstd::arithmetic::power2::lemma_pow2_strictly_increases(36, t);
    }
    assert(x < pow2(t));
    vstd::arithmetic::div_mod::lemma_basic_div((x + pow2(t)) as int, pow2(t + 1) as int);
}

proof fn lemma_huge(sig: nat, shift: nat)
    requires
        shift >= 150,
        sig >= 0x80_0000,
    ensures
        (sig * pow2(shift) * 2_000 + pow2(149)) / pow2(150) > u32::MAX,
{
    let q = pow2(150);
    lemma_pow2_pos(150);
    let rest = pow2((shift - 150) as nat);
    lemma_pow2_pos((shift - 150) as nat);
    lemma_pow2_adds(150, (shift - 150) as nat);
    let n = sig * pow2(shift) * 2_000 + pow2(149);
    assert(n >= 0x1_0000_0000 * q) by (nonlinear_arith)
        requires
            n >= sig * pow2(shift) * 2_000,
            pow2(shift) == q * rest,
            rest >= 1,
            sig >= 0x80_0000,
    ;
    vstd::arithmetic::div_mod::lemma_div_is_ordered(
        0x1_0000_0000 * q as int,
        n as int,
        q as int,
    );
    vstd::arithmetic::div_mod::lemma_div_multiples_vanish(0x1_0000_0000, q as int);
    assert(q * 0x1_0000_0000 == 0x1_0000_0000 * q) by (nonlinear_arith);
}

/// The multiplier is kept to the nearest per-mille: a thousand times the number
/// lies within half a step of it, a tie rounding up.
pub proof fn a_multiplier_is_rounded_to_the_nearest(f: F32)
    ensures
        2 * rounded_milli(f) * pow2(149) <= 2_000 * f.units() + pow2(149),
        2_000 * f.units() + pow2(149) < 2 * (rounded_milli(f) + 1) * pow2(149),
{
    let x = f.units() * 2_000 + pow2(149);
    let d = pow2(150);
    lemma_pow2_pos(149);
    lemma_pow2_unfold(150);
    vstd::arithmetic::div_mod::lemma_fundamental_div_mod(x as int, d as int);
    let r = rounded_milli(f) as int;
    let h = pow2(149) as int;
    assert(d == 2 * h);
    assert(d * r == 2 * r * h && d * (r + 1) == 2 * (r + 1) * h && d * (r + 1) == d * r + d)
        by (nonlinear_arith)
        requires
            d == 2 * h,
    ;
}

} // verus!
