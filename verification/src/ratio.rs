//! Quotients of integers as floating-point numbers, correctly rounded: the
//! number nearest the exact quotient, ties to the even significand.

use vstd::arithmetic::power2::lemma_pow2_adds;
use vstd::arithmetic::power2::lemma_pow2_pos;
use vstd::arithmetic::power2::lemma_pow2_unfold;
use vstd::arithmetic::power2::pow2;
use vstd::prelude::*;

use crate::float::{F32, F64};

verus! {

/// `num * 2^e / den` has exactly `p` bits before the point.
pub open spec fn scaled(num: nat, den: nat, p: nat, e: nat) -> bool {
    pow2((p - 1) as nat) * den <= num * pow2(e) && num * pow2(e) < pow2(p) * den
}

/// `n / den` rounded to the nearest integer, ties to even.
pub open spec fn half_even(n: nat, den: nat) -> nat {
    let q = n / den;
    let r = n % den;
    if 2 * r > den || (2 * r == den && q % 2 == 1) {
        q + 1
    } else {
        q
    }
}

/// The power of two by which a quotient is brought to `p` bits.
pub open spec fn exponent(num: nat, den: nat, p: nat) -> nat {
    choose|e: nat| scaled(num, den, p, e)
}

/// The bits of the binary64 number nearest `num / den`. A quotient that would
/// need an exponent below the normal range is zero.
pub open spec fn bits64(num: nat, den: nat) -> nat {
    if num == 0 {
        0
    } else {
        let e = exponent(num, den, 53);
        if e <= 1074 {
            ((1074 - e) * 0x10_0000_0000_0000 + half_even(num * pow2(e), den)) as nat
        } else {
            0
        }
    }
}

/// The bits of the binary32 number nearest `num / den`, for quotients in the
/// normal range.
pub open spec fn bits32(num: nat, den: nat) -> nat {
    if num == 0 {
        0
    } else {
        let e = exponent(num, den, 24);
        ((149 - e) * 0x80_0000 + half_even(num * pow2(e), den)) as nat
    }
}

/// There is one such power of two.
pub proof fn lemma_exponent_unique(num: nat, den: nat, p: nat, e: nat, f: nat)
    requires
        p > 0,
        scaled(num, den, p, e),
        scaled(num, den, p, f),
    ensures
        e == f,
        exponent(num, den, p) == e,
{
    lemma_exponent_le(num, den, p, e, f);
    lemma_exponent_le(num, den, p, f, e);
    let x = exponent(num, den, p);
    assert(scaled(num, den, p, x));
    lemma_exponent_le(num, den, p, e, x);
    lemma_exponent_le(num, den, p, x, e);
}

proof fn lemma_exponent_le(num: nat, den: nat, p: nat, e: nat, f: nat)
    requires
        p > 0,
        scaled(num, den, p, e),
        scaled(num, den, p, f),
    ensures
        e <= f,
{
    if f < e {
        lemma_pow2_adds(f, (e - f) as nat);
        lemma_pow2_unfold((e - f) as nat);
        lemma_pow2_pos((e - f - 1) as nat);
        lemma_pow2_unfold(p);
        let k = pow2((e - f) as nat);
        let (a, b) = (pow2(e), pow2(f));
        assert(num * a >= 2 * (num * b)) by (nonlinear_arith)
            requires
                a == b * k,
                k >= 2,
                num >= 0,
                b >= 0,
        ;
        let h = pow2((p - 1) as nat);
        assert(2 * (h * den) == pow2(p) * den) by (nonlinear_arith)
            requires
                pow2(p) == 2 * h,
        ;
    }
}

/// There is such a power of two for every positive quotient below `2^p`.
pub proof fn lemma_exponent_exists(num: nat, den: nat, p: nat) -> (e: nat)
    requires
        p > 0,
        num > 0,
        den > 0,
        num < pow2(p) * den,
    ensures
        scaled(num, den, p, e),
{
    let lo = pow2((p - 1) as nat) * den;
    lemma_pow2_unfold(p);
    lemma_pow2_pos((p - 1) as nat);
    assert(lo > 0) by (nonlinear_arith)
        requires
            lo == pow2((p - 1) as nat) * den,
            pow2((p - 1) as nat) > 0,
            den > 0,
    ;
    assert(pow2(p) * den == 2 * lo) by (nonlinear_arith)
        requires
            pow2(p) == 2 * pow2((p - 1) as nat),
            lo == pow2((p - 1) as nat) * den,
    ;
    vstd::arithmetic::power2::lemma2_to64();
    assert(num * pow2(0) == num) by (nonlinear_arith)
        requires
            pow2(0) == 1,
    ;
    lemma_climb(num, lo, 0)
}

proof fn lemma_climb(num: nat, lo: nat, e: nat) -> (r: nat)
    requires
        num > 0,
        num * pow2(e) < 2 * lo,
    ensures
        lo <= num * pow2(r) < 2 * lo,
    decreases 2 * lo - num * pow2(e),
{
    if num * pow2(e) >= lo {
        e
    } else {
        lemma_pow2_unfold(e + 1);
        lemma_pow2_pos(e);
        assert(num * pow2(e + 1) == 2 * (num * pow2(e))) by (nonlinear_arith)
            requires
                pow2(e + 1) == 2 * pow2(e),
        ;
        assert(num * pow2(e) > 0) by (nonlinear_arith)
            requires
                num > 0,
                pow2(e) > 0,
        ;
        lemma_climb(num, lo, e + 1)
    }
}

/// A rounded quotient of `p` bits keeps `p` bits or is the next power of two.
pub proof fn lemma_half_even_bounds(num: nat, den: nat, p: nat, e: nat)
    requires
        p > 0,
        den > 0,
        scaled(num, den, p, e),
    ensures
        pow2((p - 1) as nat) <= num * pow2(e) / den < pow2(p),
        pow2((p - 1) as nat) <= half_even(num * pow2(e), den) <= pow2(p),
{
    let n = (num * pow2(e)) as int;
    let d = den as int;
    let lo = pow2((p - 1) as nat) as int;
    let hi = pow2(p) as int;
    vstd::arithmetic::div_mod::lemma_fundamental_div_mod(n, d);
    let q = n / d;
    let r = n % d;
    assert(0 <= r < d);
    assert(q >= lo) by (nonlinear_arith)
        requires
            n == d * q + r,
            r < d,
            d > 0,
            lo * d <= n,
    ;
    assert(q < hi) by (nonlinear_arith)
        requires
            n == d * q + r,
            r >= 0,
            d > 0,
            n < hi * d,
    ;
}

/// Bring a quotient to `p` bits and round it.
fn round_to(num: u64, den: u64, p: u32) -> (r: (u64, u64))
    requires
        0 < num,
        0 < den,
        num < pow2(p as nat) * den as nat,
        p == 24 || p == 53,
    ensures
        scaled(num as nat, den as nat, p as nat, r.0 as nat),
        r.0 <= 116,
        r.1 == half_even(num as nat * pow2(r.0 as nat), den as nat),
        pow2((p - 1) as nat) <= r.1 <= pow2(p as nat),
{
    proof {
        vstd::arithmetic::power2::lemma2_to64();
        vstd::arithmetic::power2::lemma2_to64_rest();
        lemma_pow2_unfold(p as nat);
    }
    let half: u64 = if p == 24 {
        0x80_0000
    } else {
        0x10_0000_0000_0000
    };
    assert(half == pow2((p - 1) as nat));
    let ghost lo_s: nat = pow2((p - 1) as nat) * den as nat;
    assert(0 < lo_s <= 0x10_0000_0000_0000 * 0xffff_ffff_ffff_ffff) by (nonlinear_arith)
        requires
            lo_s == half * den,
            0 < half <= 0x10_0000_0000_0000,
            0 < den <= 0xffff_ffff_ffff_ffff,
    ;
    let lo: u128 = half as u128 * den as u128;
    let mut n: u128 = num as u128;
    let mut e: u64 = 0;
    assert(pow2(p as nat) * den as nat == 2 * lo_s) by (nonlinear_arith)
        requires
            pow2(p as nat) == 2 * pow2((p - 1) as nat),
            lo_s == pow2((p - 1) as nat) * den as nat,
    ;
    assert(num as nat * pow2(0) == num) by (nonlinear_arith)
        requires
            pow2(0) == 1,
    ;
    proof {
        assert(pow2(116) == 0x10_0000_0000_0000 * 0x1_0000_0000_0000_0000) by {
            lemma_pow2_adds(52, 64);
        }
    }
    while n < lo
        invariant
            lo == lo_s,
            0 < lo_s <= 0x10_0000_0000_0000 * 0xffff_ffff_ffff_ffff,
            n == num as nat * pow2(e as nat),
            n < 2 * lo_s,
            n >= pow2(e as nat),
            e <= 116,
            num > 0,
            pow2(116) == 0x10_0000_0000_0000 * 0x1_0000_0000_0000_0000,
        decreases 2 * lo - n,
    {
        proof {
            lemma_pow2_unfold((e + 1) as nat);
            lemma_pow2_pos(e as nat);
            assert(num as nat * pow2((e + 1) as nat) == 2 * (num as nat * pow2(e as nat)))
                by (nonlinear_arith)
                requires
                    pow2((e + 1) as nat) == 2 * pow2(e as nat),
            ;
            assert(num as nat * pow2(e as nat) >= 1) by (nonlinear_arith)
                requires
                    num > 0,
                    pow2(e as nat) > 0,
            ;
            if e >= 116 {
                assert(pow2(e as nat) == pow2(116));
            }
        }
        n = n * 2;
        e = e + 1;
    }
    proof {
        lemma_half_even_bounds(num as nat, den as nat, p as nat, e as nat);
    }
    let q: u128 = n / (den as u128);
    let r: u128 = n % (den as u128);
    let sig: u128 = if 2 * r > den as u128 || (2 * r == den as u128 && q % 2 == 1) {
        q + 1
    } else {
        q
    };
    (e, sig as u64)
}

/// `num / den` as binary64, for `num` up to what 53 bits before the point hold.
pub fn ratio64(num: u64, den: u64) -> (r: F64)
    requires
        den > 0,
        num < 0x20_0000_0000_0000 * den,
    ensures
        r.bits == bits64(num as nat, den as nat),
{
    if num == 0 {
        return F64 { bits: 0 };
    }
    proof {
        vstd::arithmetic::power2::lemma2_to64();
        vstd::arithmetic::power2::lemma2_to64_rest();
    }
    let (e, sig) = round_to(num, den, 53);
    proof {
        lemma_exponent_unique(num as nat, den as nat, 53, e as nat, e as nat);
    }
    let hi: u64 = (1074 - e) * 0x10_0000_0000_0000;
    F64 { bits: hi + sig }
}

/// The step between the binary32 numbers around `n`, if it is at least `step`.
pub open spec fn step_from(n: nat, step: nat) -> nat
    decreases n - step,
{
    if step == 0 || n < 0x100_0000 * step {
        step
    } else {
        step_from(n, 2 * step)
    }
}

/// `n` as a binary32 number: the nearest that has 24 bits, ties to even.
pub open spec fn whole32(n: nat) -> nat {
    half_even(n, step_from(n, 1)) * step_from(n, 1)
}

/// The bits of `n / den` as binary32 division has them, for whole numbers of
/// 64 bits: each is made a binary32 number, and the quotient of the two is
/// rounded.
pub open spec fn quotient32(n: nat, den: nat) -> nat {
    let (w, d) = (whole32(n), whole32(den));
    if w == 0 {
        0
    } else {
        // Brought below 2^24, rounded, and brought back.
        bits32(w, d * pow2(41)) + 41 * 0x80_0000
    }
}

/// A number as a binary32 number: the significand, and by which power of two
/// it is to be multiplied.
fn whole_of(n: u64) -> (r: (u64, u64))
    ensures
        whole32(n as nat) == r.0 * pow2(r.1 as nat),
        r.0 <= 0x100_0000,
        r.0 == 0 <==> n == 0,
        r.1 <= 40,
{
    let mut step: u64 = 1;
    let mut s: u64 = 0;
    proof {
        vstd::arithmetic::power2::lemma2_to64();
        vstd::arithmetic::power2::lemma2_to64_rest();
    }
    while n / 0x100_0000 >= step
        invariant
            s <= 40,
            step == pow2(s as nat),
            1 <= step <= 0x100_0000_0000,
            pow2(40) == 0x100_0000_0000,
            step > 1 ==> n >= 0x80_0000 * step,
            step_from(n as nat, 1) == step_from(n as nat, step as nat),
        decreases 40 - s,
    {
        proof {
            lemma_pow2_unfold((s + 1) as nat);
            if s >= 40 {
                assert(pow2(s as nat) == pow2(40));
            } else if s + 1 < 40 {
                vstd::arithmetic::power2::lemma_pow2_strictly_increases((s + 1) as nat, 40);
            }
        }
        step = 2 * step;
        s = s + 1;
    }
    let q: u64 = n / step;
    let r: u64 = n % step;
    proof {
        vstd::arithmetic::div_mod::lemma_fundamental_div_mod(n as int, step as int);
        assert(q < 0x100_0000) by (nonlinear_arith)
            requires
                n == step * q + r,
                r >= 0,
                n < 0x100_0000 * step,
        ;
    }
    let up: bool = r > step - r || (r == step - r && q % 2 == 1);
    let k: u64 = if up {
        q + 1
    } else {
        q
    };
    proof {
        assert(k == half_even(n as nat, step as nat));
        if step == 1 {
            assert(r == 0);
        } else {
            assert(q >= 1) by (nonlinear_arith)
                requires
                    n == step * q + r,
                    r < step,
                    n >= 0x80_0000 * step,
                    step > 0,
            ;
        }
    }
    (k, s)
}

/// A factor common to both sides leaves a rounded quotient as it is.
proof fn lemma_half_even_common(n: nat, den: nat, c: nat)
    requires
        den > 0,
        c > 0,
    ensures
        half_even(n * c, den * c) == half_even(n, den),
{
    let (q, r) = ((n / den) as int, (n % den) as int);
    vstd::arithmetic::div_mod::lemma_fundamental_div_mod(n as int, den as int);
    assert(n * c == q * (den * c) + r * c && 0 <= r * c < den * c) by (nonlinear_arith)
        requires
            n == den * q + r,
            0 <= r < den,
            c > 0,
    ;
    vstd::arithmetic::div_mod::lemma_fundamental_div_mod_converse(
        (n * c) as int,
        (den * c) as int,
        q,
        r * c,
    );
    assert((2 * (r * c) > den * c <==> 2 * r > den) && (2 * (r * c) == den * c <==> 2 * r == den))
        by (nonlinear_arith)
        requires
            c > 0,
    ;
}

/// A quotient of significands, rounded, gives the quotient of the numbers.
proof fn lemma_quotient(a: nat, i: nat, b: nat, j: nat, e: nat)
    requires
        0 < a <= 0x100_0000,
        0 < b <= 0x100_0000,
        i <= 40,
        j <= 40,
        scaled(a, 2 * b, 24, e),
    ensures
        e <= 48,
        bits32(a * pow2(i), b * pow2(j) * pow2(41)) == (109 + i - j - e) * 0x80_0000 + half_even(
            a * pow2(e),
            2 * b,
        ),
{
    vstd::arithmetic::power2::lemma2_to64();
    vstd::arithmetic::power2::lemma2_to64_rest();
    if e > 48 {
        if e > 49 {
            vstd::arithmetic::power2::lemma_pow2_strictly_increases(49, e);
        }
        assert(a * pow2(e) >= pow2(e)) by (nonlinear_arith)
            requires
                a >= 1,
                pow2(e) >= 0,
        ;
    }
    let f = (e + 40 + j - i) as nat;
    let c = pow2(40 + j);
    let (num, den) = (a * pow2(i), b * pow2(j) * pow2(41));
    lemma_pow2_pos(40 + j);
    lemma_pow2_pos(i);
    lemma_pow2_pos(j);
    assert(num * pow2(f) == a * pow2(e) * c) by {
        lemma_pow2_adds(i, f);
        lemma_pow2_adds(e, 40 + j);
        assert(a * pow2(i) * pow2(f) == a * (pow2(i) * pow2(f))) by (nonlinear_arith);
        assert(a * pow2(e) * c == a * (pow2(e) * c)) by (nonlinear_arith);
    }
    assert(den == 2 * b * c) by {
        lemma_pow2_adds(j, 41);
        lemma_pow2_unfold(j + 41);
        assert(b * pow2(j) * pow2(41) == b * (pow2(j) * pow2(41))) by (nonlinear_arith);
        assert(b * (2 * c) == 2 * b * c) by (nonlinear_arith);
    }
    let (x, y) = (a * pow2(e), 2 * b);
    assert(scaled(num, den, 24, f)) by {
        assert(pow2(23) * (y * c) <= x * c && x * c < pow2(24) * (y * c)) by (nonlinear_arith)
            requires
                pow2(23) * y <= x,
                x < pow2(24) * y,
                c > 0,
        ;
    }
    lemma_exponent_unique(num, den, 24, f, f);
    lemma_half_even_common(x, y, c);
    assert(num > 0) by (nonlinear_arith)
        requires
            num == a * pow2(i),
            a > 0,
            pow2(i) > 0,
    ;
}

/// `n / den` as binary32 division has it.
pub fn divide32(n: u64, den: u64) -> (r: F32)
    requires
        den > 0,
    ensures
        r.bits == quotient32(n as nat, den as nat),
{
    let (a, i) = whole_of(n);
    if a == 0 {
        assert(a * pow2(i as nat) == 0) by (nonlinear_arith)
            requires
                a == 0,
        ;
        return F32 { bits: 0 };
    }
    let (b, j) = whole_of(den);
    proof {
        vstd::arithmetic::power2::lemma2_to64();
        lemma_pow2_pos(i as nat);
        assert(a * pow2(i as nat) > 0) by (nonlinear_arith)
            requires
                a > 0,
                pow2(i as nat) > 0,
        ;
    }
    let (e, sig) = round_to(a, 2 * b, 24);
    proof {
        lemma_quotient(a as nat, i as nat, b as nat, j as nat, e as nat);
    }
    let hi: u64 = (150 + i - j - e) * 0x80_0000;
    F32 { bits: (hi + sig) as u32 }
}

} // verus!
