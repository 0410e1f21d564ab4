//! Floating-point numbers as plain bits.
//!
//! The simulation carries coordinates, ranges and multipliers that are IEEE-754
//! numbers. This module holds them as integers and decides what a comparison
//! of the numbers decides: the order, finiteness and "not a number".

use vstd::arithmetic::power2;
use vstd::arithmetic::power2::pow2;
use vstd::prelude::*;

verus! {

/// Magnitude bits of a binary32 number (everything but the sign).
pub const MAG_MOD: u32 = 0x8000_0000;

/// The magnitude of an infinity. Larger magnitudes are not numbers.
pub const MAG_INF: u32 = 0x7f80_0000;

/// The bits of an IEEE-754 binary32 number.
#[derive(Clone, Copy, PartialEq, Eq, Structural, Debug)]
pub struct F32 {
    pub bits: u32,
}

/// The bits of an IEEE-754 binary64 number.
#[derive(Clone, Copy, PartialEq, Eq, Structural, Debug)]
pub struct F64 {
    pub bits: u64,
}

/// A point of the map, or a displacement: two binary32 coordinates.
#[derive(Clone, Copy, PartialEq, Eq, Structural, Debug)]
pub struct Point {
    pub x: F32,
    pub y: F32,
}

impl F32 {
    /// The bits without the sign.
    pub open spec fn mag(self) -> int {
        self.bits as int % 0x8000_0000
    }

    pub open spec fn negative(self) -> bool {
        self.bits >= 0x8000_0000
    }

    pub open spec fn nan(self) -> bool {
        self.mag() > 0x7f80_0000
    }

    /// Neither an infinity nor a NaN.
    pub open spec fn finite(self) -> bool {
        self.mag() < 0x7f80_0000
    }

    /// The absolute value of a finite number, in units of 2^-149 (the smallest
    /// step between two numbers).
    pub open spec fn units(self) -> nat {
        let e = self.mag() / 0x80_0000;
        let m = self.mag() % 0x80_0000;
        if e == 0 {
            m as nat
        } else {
            (m + 0x80_0000) as nat * pow2((e - 1) as nat)
        }
    }

    /// Orders the numbers: for two that are not NaN, `a < b` as numbers iff
    /// `a.key() < b.key()`, and the two zeros have one key.
    pub open spec fn key(self) -> int {
        if self.negative() {
            -self.mag()
        } else {
            self.mag()
        }
    }

    /// `a < b` as numbers: false when either is NaN.
    pub open spec fn less(self, other: F32) -> bool {
        !self.nan() && !other.nan() && self.key() < other.key()
    }

    /// `a <= b` as numbers: false when either is NaN.
    pub open spec fn at_most(self, other: F32) -> bool {
        !self.nan() && !other.nan() && self.key() <= other.key()
    }

    /// `a == b` as numbers: the zeros are equal, NaN equals nothing.
    pub open spec fn same(self, other: F32) -> bool {
        !self.nan() && !other.nan() && self.key() == other.key()
    }

    pub open spec fn zero() -> F32 {
        F32 { bits: 0 }
    }

    pub open spec fn one() -> F32 {
        F32 { bits: 0x3f80_0000 }
    }

    /// `is_finite() && self > 0.0`.
    pub open spec fn finite_positive(self) -> bool {
        self.finite() && self.key() > 0
    }

    fn magnitude(&self) -> (r: u32)
        ensures
            r == self.mag(),
    {
        self.bits % MAG_MOD
    }

    pub fn is_nan(&self) -> (r: bool)
        ensures
            r == self.nan(),
    {
        self.magnitude() > MAG_INF
    }

    pub fn is_finite(&self) -> (r: bool)
        ensures
            r == self.finite(),
    {
        self.magnitude() < MAG_INF
    }

    fn order_key(&self) -> (r: i64)
        ensures
            r == self.key(),
    {
        let m: i64 = self.magnitude() as i64;
        if self.bits >= MAG_MOD {
            -m
        } else {
            m
        }
    }

    /// `self < other`, as the numbers compare.
    pub fn lt(&self, other: &F32) -> (r: bool)
        ensures
            r == self.less(*other),
    {
        !self.is_nan() && !other.is_nan() && self.order_key() < other.order_key()
    }

    /// `self <= other`, as the numbers compare.
    pub fn le(&self, other: &F32) -> (r: bool)
        ensures
            r == self.at_most(*other),
    {
        !self.is_nan() && !other.is_nan() && self.order_key() <= other.order_key()
    }

    /// `self == other`, as the numbers compare.
    pub fn num_eq(&self, other: &F32) -> (r: bool)
        ensures
            r == self.same(*other),
    {
        !self.is_nan() && !other.is_nan() && self.order_key() == other.order_key()
    }

    /// Is the number finite and above zero?
    pub fn is_finite_positive(&self) -> (r: bool)
        ensures
            r == self.finite_positive(),
    {
        self.is_finite() && self.order_key() > 0
    }
}

// ---- a fraction of a whole --------------------------------------------------

/// The least count that is no less than `f` times `n`, for a fraction `f`
/// between 0 and 1: what is below counts as 0, what is above as 1, and NaN as 0.
pub open spec fn part(f: F32, n: nat) -> nat {
    if !F32::zero().less(f) {
        0
    } else if F32::one().at_most(f) {
        n
    } else {
        ((f.units() * n + pow2(149) - 1) / (pow2(149) as int)) as nat
    }
}

/// A quotient rounded up is the same in any unit.
proof fn lemma_ceil_scales(x: nat, d: nat, c: nat, k: nat)
    requires
        0 < d,
        0 < c,
        0 < x,
        (k - 1) * d < x <= k * d,
    ensures
        (x * c + d * c - 1) / (d * c) as int == k,
{
    let dc = (d * c) as int;
    let top = x * c + d * c - 1;
    assert(0 < dc) by (nonlinear_arith)
        requires
            0 < d,
            0 < c,
            dc == d * c,
    ;
    assert((k - 1) * dc + 1 <= x * c <= k * dc) by (nonlinear_arith)
        requires
            (k - 1) * d < x <= k * d,
            0 < c,
            dc == d * c,
    ;
    let rest = top - k * dc;
    assert(k * dc + rest == top);
    assert((k - 1) * dc == k * dc - dc) by (nonlinear_arith);
    vstd::arithmetic::div_mod::lemma_fundamental_div_mod_converse(top, dc, k as int, rest);
}

/// Of a fraction between 0 and 1, the significand and how far it is shifted.
fn split_fraction(f: F32) -> (r: (u32, u32))
    requires
        F32::zero().less(f),
        f.less(F32::one()),
    ensures
        0 < r.0 < 0x100_0000,
        r.1 <= 125,
        f.units() == r.0 * pow2(r.1 as nat),
{
    let e: u32 = f.bits / 0x80_0000;
    let m: u32 = f.bits % 0x80_0000;
    proof {
        power2::lemma2_to64();
    }
    if e == 0 {
        assert(m * 1 == m);
        (m, 0)
    } else {
        (m + 0x80_0000, e - 1)
    }
}

/// The least count that is no less than `f` times `n`.
pub fn part_of(f: F32, n: usize) -> (r: usize)
    ensures
        r == part(f, n as nat),
        r <= n,
{
    if !(F32 { bits: 0 }).lt(&f) {
        return 0;
    }
    if (F32 { bits: 0x3f80_0000 }).le(&f) {
        return n;
    }
    let (sig, shift) = split_fraction(f);
    let t: u32 = 149 - shift;
    assert(sig * n <= 0x100_0000 * 0xffff_ffff_ffff_ffff) by (nonlinear_arith)
        requires
            sig < 0x100_0000,
            n <= 0xffff_ffff_ffff_ffff,
    ;
    let x: u128 = sig as u128 * n as u128;
    proof {
        power2::lemma_pow2_adds(t as nat, shift as nat);
        assert(t as nat + shift as nat == 149);
        power2::lemma_pow2_pos(t as nat);
        power2::lemma_pow2_pos(shift as nat);
        assert(f.units() * n == x * pow2(shift as nat)) by (nonlinear_arith)
            requires
                f.units() == sig * pow2(shift as nat),
                x == sig * n,
        ;
    }
    if n == 0 {
        proof {
            assert(f.units() * n == 0) by (nonlinear_arith)
                requires
                    n == 0,
            ;
            power2::lemma_pow2_pos(149);
            vstd::arithmetic::div_mod::lemma_basic_div(pow2(149) - 1, pow2(149) as int);
        }
        return 0;
    }
    assert(0 < x) by (nonlinear_arith)
        requires
            x == sig * n,
            0 < sig,
            0 < n,
    ;
    if t >= 100 {
        proof {
            power2::lemma2_to64();
            power2::lemma_pow2_adds(64, 36);
            power2::lemma2_to64_rest();
            if t > 100 {
                power2::lemma_pow2_strictly_increases(100, t as nat);
            }
            assert(x <= 1 * pow2(t as nat));
            lemma_ceil_scales(x as nat, pow2(t as nat), pow2(shift as nat), 1);
        }
        return 1;
    }
    let mut d: u128 = 1;
    let mut i: u32 = 0;
    proof {
        power2::lemma2_to64();
    }
    while i < t
        invariant
            i <= t < 100,
            d == pow2(i as nat),
        decreases t - i,
    {
        proof {
            power2::lemma_pow2_unfold((i + 1) as nat);
            power2::lemma2_to64();
            power2::lemma2_to64_rest();
            power2::lemma_pow2_adds(64, 36);
            power2::lemma_pow2_strictly_increases((i + 1) as nat, 101);
            power2::lemma_pow2_unfold(101);
        }
        d = d * 2;
        i = i + 1;
    }
    proof {
        power2::lemma2_to64();
        power2::lemma2_to64_rest();
        power2::lemma_pow2_adds(64, 36);
        power2::lemma_pow2_strictly_increases(t as nat, 100);
        if t > 24 {
            power2::lemma_pow2_strictly_increases(24, t as nat);
        }
        assert(x <= n * d) by (nonlinear_arith)
            requires
                x == sig * n,
                sig < 0x100_0000 <= d,
        ;
    }
    let k: u128 = (x + d - 1) / d;
    proof {
        vstd::arithmetic::div_mod::lemma_fundamental_div_mod((x + d - 1) as int, d as int);
        let rest = (x + d - 1) % (d as int);
        assert(d * k + rest == x + d - 1);
        assert((k - 1) * d < x <= k * d) by (nonlinear_arith)
            requires
                d * k + rest == x + d - 1,
                0 <= rest < d,
        ;
        assert(k <= n) by (nonlinear_arith)
            requires
                (k - 1) * d < x <= n * d,
                0 < d,
        ;
        lemma_ceil_scales(x as nat, d as nat, pow2(shift as nat), k as nat);
    }
    k as usize
}

/// The order is total on what is not NaN: exactly one of `a < b`, `a == b`,
/// `b < a` holds.
pub proof fn order_is_total(a: F32, b: F32)
    requires
        !a.nan(),
        !b.nan(),
    ensures
        a.less(b) || a.same(b) || b.less(a),
        !(a.less(b) && b.less(a)),
        a.same(b) ==> !a.less(b) && !b.less(a),
        a.at_most(b) <==> a.less(b) || a.same(b),
{
}

/// A larger magnitude is a larger absolute value.
pub proof fn units_grow(a: F32, b: F32)
    requires
        a.finite(),
        b.finite(),
        a.mag() < b.mag(),
    ensures
        a.units() < b.units(),
{
    let ea = a.mag() / 0x80_0000;
    let eb = b.mag() / 0x80_0000;
    let ma = a.mag() % 0x80_0000;
    let mb = b.mag() % 0x80_0000;
    assert(ea <= eb);
    if eb > 0 {
        let pb = pow2((eb - 1) as nat);
        vstd::arithmetic::power2::lemma_pow2_pos((eb - 1) as nat);
        if ea == eb {
            assert(ma < mb);
            assert((ma + 0x80_0000) * pb < (mb + 0x80_0000) * pb) by (nonlinear_arith)
                requires
                    ma < mb,
                    pb > 0,
            ;
        } else if ea == 0 {
            assert(0x80_0000 <= (mb + 0x80_0000) * pb) by (nonlinear_arith)
                requires
                    mb >= 0,
                    pb >= 1,
            ;
        } else {
            let pa = pow2((ea - 1) as nat);
            vstd::arithmetic::power2::lemma_pow2_unfold(ea as nat);
            vstd::arithmetic::power2::lemma_pow2_pos((ea - 1) as nat);
            if ea < eb - 1 {
                vstd::arithmetic::power2::lemma_pow2_strictly_increases(ea as nat, (eb - 1) as nat);
            }
            assert(2 * pa <= pb);
            assert((ma + 0x80_0000) * pa < (mb + 0x80_0000) * pb) by (nonlinear_arith)
                requires
                    0 <= ma < 0x80_0000,
                    mb >= 0,
                    2 * pa <= pb,
                    pa > 0,
            ;
        }
    }
}

/// Two finite numbers with one sign and one absolute value are one number.
pub proof fn units_decide(a: F32, b: F32)
    requires
        a.finite(),
        b.finite(),
        a.negative() == b.negative(),
        a.units() == b.units(),
    ensures
        a == b,
{
    if a.mag() < b.mag() {
        units_grow(a, b);
    } else if b.mag() < a.mag() {
        units_grow(b, a);
    }
}

/// The value of a finite number, in units of 2^-149.
pub open spec fn signed_units(f: F32) -> int {
    if f.negative() {
        -(f.units() as int)
    } else {
        f.units() as int
    }
}

proof fn lemma_zero_units(f: F32)
    requires
        f.finite(),
    ensures
        f.units() == 0 <==> f.mag() == 0,
{
    let z = F32 { bits: 0 };
    if f.mag() > 0 {
        units_grow(z, f);
    }
}

/// Numbers are ordered by their values, and the two zeros are one.
pub proof fn the_order_is_that_of_the_values(a: F32, b: F32)
    requires
        a.finite(),
        b.finite(),
    ensures
        a.less(b) <==> signed_units(a) < signed_units(b),
        a.at_most(b) <==> signed_units(a) <= signed_units(b),
        a.same(b) <==> signed_units(a) == signed_units(b),
        a.finite_positive() <==> signed_units(a) > 0,
{
    lemma_zero_units(a);
    lemma_zero_units(b);
    if a.mag() < b.mag() {
        units_grow(a, b);
    } else if b.mag() < a.mag() {
        units_grow(b, a);
    } else {
        assert(a.units() == b.units());
    }
}

/// What is not a number compares with nothing.
pub proof fn nothing_compares_with_nan(a: F32, b: F32)
    requires
        a.nan(),
    ensures
        !a.less(b) && !b.less(a),
        !a.at_most(b) && !b.at_most(a),
        !a.same(b) && !b.same(a),
        !a.finite(),
{
}

} // verus!
