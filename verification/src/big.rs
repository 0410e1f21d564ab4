//! A minimal unsigned big integer: little-endian 32-bit limbs with no leading
//! zero limb, and only what exact means of rates need.

use std::cmp::Ordering;

use vstd::prelude::*;

verus! {

/// The weight of limb `i`.
pub open spec fn weight(i: nat) -> nat
    decreases i,
{
    if i == 0 {
        1
    } else {
        0x1_0000_0000 * weight((i - 1) as nat)
    }
}

/// Limb `i`, zero past the end.
pub open spec fn limb(s: Seq<u32>, i: int) -> nat {
    if 0 <= i < s.len() {
        s[i] as nat
    } else {
        0
    }
}

/// The value of the first `n` limbs.
pub open spec fn low(s: Seq<u32>, n: nat) -> nat
    decreases n,
{
    if n == 0 {
        0
    } else {
        low(s, (n - 1) as nat) + limb(s, n - 1) * weight((n - 1) as nat)
    }
}

proof fn lemma_weight_pos(i: nat)
    ensures
        weight(i) > 0,
    decreases i,
{
    if i > 0 {
        lemma_weight_pos((i - 1) as nat);
    }
}

proof fn lemma_weight_grows(i: nat, j: nat)
    requires
        i <= j,
    ensures
        weight(i) <= weight(j),
    decreases j,
{
    if i < j {
        lemma_weight_grows(i, (j - 1) as nat);
        lemma_weight_pos((j - 1) as nat);
    }
}

/// Zeros past the end add nothing.
proof fn lemma_low_past(s: Seq<u32>, n: nat)
    requires
        n >= s.len(),
    ensures
        low(s, n) == low(s, s.len()),
    decreases n,
{
    if n > s.len() {
        lemma_low_past(s, (n - 1) as nat);
        assert(0 * weight((n - 1) as nat) == 0);
    }
}

/// The first `n` limbs decide their value.
proof fn lemma_low_same(s: Seq<u32>, t: Seq<u32>, n: nat)
    requires
        forall|i: int| 0 <= i < n ==> limb(s, i) == limb(t, i),
    ensures
        low(s, n) == low(t, n),
    decreases n,
{
    if n > 0 {
        lemma_low_same(s, t, (n - 1) as nat);
    }
}

proof fn lemma_low_push(s: Seq<u32>, x: u32)
    ensures
        low(s.push(x), s.len() + 1) == low(s, s.len()) + x as nat * weight(s.len()),
{
    lemma_low_same(s.push(x), s, s.len());
}

/// `n` limbs stay below the next weight.
proof fn lemma_low_bound(s: Seq<u32>, n: nat)
    ensures
        low(s, n) < weight(n),
    decreases n,
{
    if n > 0 {
        lemma_low_bound(s, (n - 1) as nat);
        let w = weight((n - 1) as nat);
        let x = limb(s, n - 1);
        assert(x * w <= 0xffff_ffff * w) by (nonlinear_arith)
            requires
                x <= 0xffff_ffff,
                w >= 0,
        ;
    }
}

/// The top limb alone is at least its weight.
proof fn lemma_top(s: Seq<u32>)
    requires
        s.len() > 0,
        s.last() != 0,
    ensures
        low(s, s.len()) >= weight((s.len() - 1) as nat),
{
    let w = weight((s.len() - 1) as nat);
    let x = s.last() as nat;
    assert(x * w >= w) by (nonlinear_arith)
        requires
            x >= 1,
            w >= 0,
    ;
}

/// An unsigned integer of any size.
#[derive(Clone, Debug, PartialEq, Eq)]
pub struct Big {
    limbs: Vec<u32>,
}

impl View for Big {
    type V = nat;

    closed spec fn view(&self) -> nat {
        low(self.limbs@, self.limbs@.len())
    }
}

impl Big {
    /// No leading zero limb: one value, one form.
    pub closed spec fn wf(&self) -> bool {
        self.limbs@.len() > 0 ==> self.limbs@.last() != 0
    }

    /// The limbs, the lowest first.
    pub closed spec fn digits(&self) -> Seq<u32> {
        self.limbs@
    }

    fn trim(&mut self)
        ensures
            final(self).wf(),
            final(self)@ == old(self)@,
    {
        let ghost v = self@;
        while self.limbs.len() > 0 && self.limbs[self.limbs.len() - 1] == 0
            invariant
                self@ == v,
            ensures
                self@ == v,
                self.wf(),
            decreases self.limbs@.len(),
        {
            let ghost before = self.limbs@;
            let _ = self.limbs.pop();
            proof {
                assert(self.limbs@ =~= before.drop_last());
                lemma_low_same(before, self.limbs@, self.limbs@.len());
                assert(0 * weight(self.limbs@.len()) == 0);
            }
        }
    }

    /// The integer `v`.
    pub fn of(v: u64) -> (r: Big)
        ensures
            r.wf(),
            r@ == v,
    {
        let mut limbs: Vec<u32> = Vec::new();
        let lo: u32 = (v % 0x1_0000_0000) as u32;
        let hi: u32 = (v / 0x1_0000_0000) as u32;
        limbs.push(lo);
        limbs.push(hi);
        let mut b = Big { limbs };
        proof {
            reveal_with_fuel(low, 3);
            reveal_with_fuel(weight, 3);
            assert(b@ == lo + hi * 0x1_0000_0000);
        }
        b.trim();
        b
    }

    pub fn is_zero(&self) -> (r: bool)
        requires
            self.wf(),
        ensures
            r == (self@ == 0),
    {
        proof {
            if self.limbs@.len() > 0 {
                lemma_top(self.limbs@);
                lemma_weight_pos((self.limbs@.len() - 1) as nat);
            }
        }
        self.limbs.len() == 0
    }

    /// `self *= m`.
    pub fn mul_small(&mut self, m: u64)
        requires
            old(self).wf(),
        ensures
            final(self).wf(),
            final(self)@ == old(self)@ * m,
    {
        let mut out: Vec<u32> = Vec::new();
        let mut carry: u128 = 0;
        let mut i: usize = 0;
        let ghost s = self.limbs@;
        assert(0nat * m == 0) by (nonlinear_arith);
        assert(0 * weight(0) == 0);
        while i < self.limbs.len()
            invariant
                i <= self.limbs@.len(),
                s == self.limbs@,
                out@.len() == i,
                carry <= 0xffff_ffff_ffff_ffff,
                low(out@, i as nat) + carry * weight(i as nat) == low(s, i as nat) * m,
            decreases self.limbs@.len() - i,
        {
            let a: u32 = self.limbs[i];
            assert(0 <= a * m <= 0xffff_ffff * 0xffff_ffff_ffff_ffff) by (nonlinear_arith)
                requires
                    0 <= a <= 0xffff_ffff,
                    0 <= m <= 0xffff_ffff_ffff_ffff,
            ;
            let t: u128 = a as u128 * m as u128 + carry;
            let x: u32 = (t % 0x1_0000_0000) as u32;
            let c: u128 = t / 0x1_0000_0000;
            proof {
                lemma_low_push(out@, x);
                lemma_step_mul(
                    low(out@, i as nat),
                    low(s, i as nat),
                    weight(i as nat),
                    a as nat,
                    m as nat,
                    carry as nat,
                    x as nat,
                    c as nat,
                );
            }
            out.push(x);
            carry = c;
            i = i + 1;
        }
        self.limbs = push_carry(out, carry);
        self.trim();
    }

    /// `self += other`.
    pub fn add(&mut self, other: &Big)
        requires
            old(self).wf(),
            other.wf(),
        ensures
            final(self).wf(),
            final(self)@ == old(self)@ + other@,
    {
        let ghost s = self.limbs@;
        let ghost t = other.limbs@;
        let n: usize = if self.limbs.len() < other.limbs.len() {
            other.limbs.len()
        } else {
            self.limbs.len()
        };
        let mut out: Vec<u32> = Vec::new();
        let mut carry: u64 = 0;
        let mut i: usize = 0;
        assert(0 * weight(0) == 0);
        while i < n
            invariant
                i <= n,
                s == self.limbs@,
                t == other.limbs@,
                out@.len() == i,
                carry <= 1,
                low(out@, i as nat) + carry * weight(i as nat) == low(s, i as nat) + low(
                    t,
                    i as nat,
                ),
            decreases n - i,
        {
            let a: u32 = limb_at(&self.limbs, i);
            let b: u32 = limb_at(&other.limbs, i);
            let v: u64 = a as u64 + b as u64 + carry;
            let x: u32 = (v % 0x1_0000_0000) as u32;
            let c: u64 = v / 0x1_0000_0000;
            proof {
                lemma_low_push(out@, x);
                let w = weight(i as nat) as int;
                assert(x * w + c * (0x1_0000_0000 * w) == a * w + b * w + carry * w)
                    by (nonlinear_arith)
                    requires
                        x + 0x1_0000_0000 * c == a + b + carry,
                ;
            }
            out.push(x);
            carry = c;
            i = i + 1;
        }
        proof {
            lemma_low_past(s, n as nat);
            lemma_low_past(t, n as nat);
        }
        self.limbs = push_carry(out, carry as u128);
        self.trim();
    }

    /// `self -= other`, which must not be larger.
    pub fn sub(&mut self, other: &Big)
        requires
            old(self).wf(),
            other.wf(),
            other@ <= old(self)@,
        ensures
            final(self).wf(),
            final(self)@ == old(self)@ - other@,
    {
        let ghost s = self.limbs@;
        let ghost t = other.limbs@;
        let n: usize = self.limbs.len();
        let mut out: Vec<u32> = Vec::new();
        let mut borrow: u64 = 0;
        let mut i: usize = 0;
        assert(0 * weight(0) == 0);
        while i < n
            invariant
                i <= n,
                n == s.len(),
                s == self.limbs@,
                t == other.limbs@,
                out@.len() == i,
                borrow <= 1,
                low(out@, i as nat) + low(t, i as nat) == low(s, i as nat) + borrow * weight(
                    i as nat,
                ),
            decreases n - i,
        {
            let a: u64 = self.limbs[i] as u64;
            let b: u64 = limb_at(&other.limbs, i) as u64 + borrow;
            let (x, c): (u64, u64) = if a >= b {
                (a - b, 0)
            } else {
                (a + 0x1_0000_0000 - b, 1)
            };
            proof {
                lemma_low_push(out@, x as u32);
                let w = weight(i as nat) as int;
                let tb = limb(t, i as int) as int;
                assert(x * w + tb * w + borrow * w == a * w + c * (0x1_0000_0000 * w))
                    by (nonlinear_arith)
                    requires
                        x + tb + borrow == a + 0x1_0000_0000 * c,
                ;
            }
            out.push(x as u32);
            borrow = c;
            i = i + 1;
        }
        proof {
            let w = weight(n as nat);
            lemma_low_bound(out@, n as nat);
            lemma_low_bound(s, n as nat);
            if t.len() > n {
                lemma_top(t);
                lemma_weight_grows(n as nat, (t.len() - 1) as nat);
            }
            lemma_low_past(t, n as nat);
            assert(borrow == 0) by {
                if borrow == 1 {
                    assert(1 * w == w);
                }
            }
            assert(0 * w == 0);
        }
        self.limbs = out;
        self.trim();
    }

    /// `self *= 2`.
    pub fn shl1(&mut self)
        requires
            old(self).wf(),
        ensures
            final(self).wf(),
            final(self)@ == 2 * old(self)@,
    {
        self.mul_small(2);
    }

    /// `self < other`?
    pub fn less(&self, other: &Big) -> (r: bool)
        requires
            self.wf(),
            other.wf(),
        ensures
            r == (self@ < other@),
    {
        let ghost s = self.limbs@;
        let ghost t = other.limbs@;
        if self.limbs.len() != other.limbs.len() {
            proof {
                lemma_low_bound(s, s.len());
                lemma_low_bound(t, t.len());
                if s.len() < t.len() {
                    lemma_top(t);
                    lemma_weight_grows(s.len(), (t.len() - 1) as nat);
                } else {
                    lemma_top(s);
                    lemma_weight_grows(t.len(), (s.len() - 1) as nat);
                }
            }
            return self.limbs.len() < other.limbs.len();
        }
        let mut i: usize = self.limbs.len();
        while i > 0
            invariant
                i <= s.len(),
                s == self.limbs@,
                t == other.limbs@,
                s.len() == t.len(),
                self@ - other@ == low(s, i as nat) - low(t, i as nat),
            decreases i,
        {
            let a: u32 = self.limbs[i - 1];
            let b: u32 = other.limbs[i - 1];
            if a != b {
                proof {
                    let w = weight((i - 1) as nat);
                    lemma_low_bound(s, (i - 1) as nat);
                    lemma_low_bound(t, (i - 1) as nat);
                    assert(a < b ==> a * w + w <= b * w) by (nonlinear_arith)
                        requires
                            w >= 0,
                    ;
                    assert(b < a ==> b * w + w <= a * w) by (nonlinear_arith)
                        requires
                            w >= 0,
                    ;
                }
                return a < b;
            }
            i = i - 1;
        }
        false
    }

    /// How the two integers compare.
    pub fn cmp(&self, other: &Big) -> (r: Ordering)
        requires
            self.wf(),
            other.wf(),
        ensures
            r == Ordering::Less <==> self@ < other@,
            r == Ordering::Equal <==> self@ == other@,
            r == Ordering::Greater <==> self@ > other@,
    {
        if self.less(other) {
            Ordering::Less
        } else if other.less(self) {
            Ordering::Greater
        } else {
            Ordering::Equal
        }
    }

    /// The same integer again.
    pub fn copied(&self) -> (r: Big)
        requires
            self.wf(),
        ensures
            r.wf(),
            r@ == self@,
    {
        let mut limbs: Vec<u32> = Vec::new();
        let mut i: usize = 0;
        while i < self.limbs.len()
            invariant
                i <= self.limbs@.len(),
                limbs@ == self.limbs@.take(i as int),
            decreases self.limbs@.len() - i,
        {
            limbs.push(self.limbs[i]);
            assert(limbs@ =~= self.limbs@.take(i + 1));
            i = i + 1;
        }
        assert(limbs@ =~= self.limbs@);
        Big { limbs }
    }
}

/// Zero is the integer of no limbs, and the only one.
pub proof fn zero_has_no_limbs(a: Big)
    requires
        a.wf(),
    ensures
        a@ == 0 <==> a.digits().len() == 0,
{
    let s = a.limbs@;
    if s.len() > 0 {
        lemma_top(s);
        lemma_weight_pos((s.len() - 1) as nat);
    }
}

/// Two well-formed integers with one value have one form.
pub proof fn one_value_one_form(a: Big, b: Big)
    requires
        a.wf(),
        b.wf(),
        a@ == b@,
    ensures
        a.digits() == b.digits(),
{
    let (s, t) = (a.limbs@, b.limbs@);
    lemma_low_bound(s, s.len());
    lemma_low_bound(t, t.len());
    if s.len() < t.len() {
        lemma_top(t);
        lemma_weight_grows(s.len(), (t.len() - 1) as nat);
    } else if t.len() < s.len() {
        lemma_top(s);
        lemma_weight_grows(t.len(), (s.len() - 1) as nat);
    } else {
        lemma_same_limbs(s, t, s.len());
        assert(s =~= t);
    }
}

proof fn lemma_same_limbs(s: Seq<u32>, t: Seq<u32>, n: nat)
    requires
        s.len() == t.len(),
        n <= s.len(),
        low(s, n) == low(t, n),
    ensures
        forall|i: int| 0 <= i < n ==> s[i] == t[i],
    decreases n,
{
    if n > 0 {
        let w = weight((n - 1) as nat);
        let (a, b) = (s[n - 1], t[n - 1]);
        lemma_low_bound(s, (n - 1) as nat);
        lemma_low_bound(t, (n - 1) as nat);
        assert(a < b ==> a * w + w <= b * w) by (nonlinear_arith)
            requires
                w >= 0,
        ;
        assert(b < a ==> b * w + w <= a * w) by (nonlinear_arith)
            requires
                w >= 0,
        ;
        assert(a == b);
        lemma_same_limbs(s, t, (n - 1) as nat);
    }
}

fn limb_at(limbs: &Vec<u32>, i: usize) -> (r: u32)
    ensures
        r == limb(limbs@, i as int),
{
    if i < limbs.len() {
        limbs[i]
    } else {
        0
    }
}

proof fn lemma_step_mul(o: nat, l: nat, w: nat, a: nat, m: nat, carry: nat, x: nat, c: nat)
    requires
        o + carry * w == l * m,
        x + 0x1_0000_0000 * c == a * m + carry,
    ensures
        o + x * w + c * (0x1_0000_0000 * w) == (l + a * w) * m,
{
    assert(x * w + c * (0x1_0000_0000 * w) == (a * m + carry) * w) by (nonlinear_arith)
        requires
            x + 0x1_0000_0000 * c == a * m + carry,
    ;
    assert((a * m + carry) * w == a * w * m + carry * w) by (nonlinear_arith);
    assert((l + a * w) * m == l * m + a * w * m) by (nonlinear_arith);
}

/// Append what is carried out of the top limb.
fn push_carry(out: Vec<u32>, carry: u128) -> (r: Vec<u32>)
    ensures
        low(r@, r@.len()) == low(out@, out@.len()) + carry * weight(out@.len()),
{
    let ghost total: nat = low(out@, out@.len()) + carry as nat * weight(out@.len());
    let mut r: Vec<u32> = out;
    let mut c: u128 = carry;
    while c > 0
        invariant
            low(r@, r@.len()) + c as nat * weight(r@.len()) == total,
        decreases c,
    {
        let x: u32 = (c % 0x1_0000_0000) as u32;
        let d: u128 = c / 0x1_0000_0000;
        proof {
            lemma_low_push(r@, x);
            let w = weight(r@.len());
            assert(x * w + d * (0x1_0000_0000 * w) == c * w) by (nonlinear_arith)
                requires
                    x + 0x1_0000_0000 * d == c,
            ;
        }
        r.push(x);
        c = d;
    }
    assert(0 * weight(r@.len()) == 0);
    r
}

impl vstd::std_specs::convert::FromSpecImpl<u64> for Big {
    open spec fn obeys_from_spec() -> bool {
        false
    }

    open spec fn from_spec(v: u64) -> Big {
        choose|b: Big| b.wf() && #[trigger] b@ == v
    }
}

impl From<u64> for Big {
    /// The integer `v`, as [`Big::of`] makes it.
    fn from(v: u64) -> (r: Self)
        ensures
            r.wf(),
            r@ == v,
    {
        Big::of(v)
    }
}

} // verus!
