//! Counting over sequences: how many elements satisfy something, in whatever
//! order they stand.

use vstd::multiset::Multiset;
use vstd::prelude::*;

verus! {

/// How many elements of `s` satisfy `p`.
pub open spec fn count<T>(s: Seq<T>, p: spec_fn(T) -> bool) -> nat
    decreases s.len(),
{
    if s.len() == 0 {
        0
    } else {
        count(s.drop_last(), p) + if p(s.last()) {
            1nat
        } else {
            0nat
        }
    }
}

/// Counting one element further.
pub proof fn lemma_count_next<T>(s: Seq<T>, p: spec_fn(T) -> bool, i: int)
    requires
        0 <= i < s.len(),
    ensures
        count(s.take(i + 1), p) == count(s.take(i), p) + if p(s[i]) {
            1nat
        } else {
            0nat
        },
{
    assert(s.take(i + 1).drop_last() =~= s.take(i));
}

/// No more are counted than there are.
pub proof fn lemma_count_bound<T>(s: Seq<T>, p: spec_fn(T) -> bool)
    ensures
        count(s, p) <= s.len(),
    decreases s.len(),
{
    if s.len() > 0 {
        lemma_count_bound(s.drop_last(), p);
    }
}

/// Two counts of things that exclude each other and together are `r`.
pub proof fn lemma_count_split<T>(
    s: Seq<T>,
    p: spec_fn(T) -> bool,
    q: spec_fn(T) -> bool,
    r: spec_fn(T) -> bool,
)
    requires
        forall|x: T| #[trigger] r(x) <==> (p(x) || q(x)),
        forall|x: T| !(#[trigger] p(x) && q(x)),
    ensures
        count(s, r) == count(s, p) + count(s, q),
    decreases s.len(),
{
    if s.len() > 0 {
        lemma_count_split(s.drop_last(), p, q, r);
        assert(r(s.last()) <==> (p(s.last()) || q(s.last())));
        assert(!(p(s.last()) && q(s.last())));
    }
}

proof fn lemma_count_multiset<T>(s: Seq<T>, p: spec_fn(T) -> bool)
    ensures
        count(s, p) == s.to_multiset().filter(p).len(),
    decreases s.len(),
{
    broadcast use vstd::multiset::group_multiset_axioms;
    broadcast use vstd::seq_lib::group_to_multiset_ensures;

    if s.len() == 0 {
        assert(s =~= Seq::empty());
        assert(s.to_multiset().len() == 0);
        assert(s.to_multiset().filter(p) =~= Multiset::empty()) by {
            assert forall|x: T| s.to_multiset().filter(p).count(x) == 0 by {
                if s.to_multiset().count(x) > 0 {
                    assert(s.contains(x));
                }
            }
        }
    } else {
        let t = s.drop_last();
        lemma_count_multiset(t, p);
        assert(t.push(s.last()) =~= s);
        vstd::seq_lib::to_multiset_build(t, s.last());
        let m = t.to_multiset();
        if p(s.last()) {
            assert(s.to_multiset().filter(p) =~= m.filter(p).insert(s.last()));
        } else {
            assert(s.to_multiset().filter(p) =~= m.filter(p));
        }
    }
}

/// A count does not depend on the order.
pub proof fn count_ignores_order<T>(s: Seq<T>, t: Seq<T>, p: spec_fn(T) -> bool)
    requires
        s.to_multiset() == t.to_multiset(),
    ensures
        count(s, p) == count(t, p),
{
    lemma_count_multiset(s, p);
    lemma_count_multiset(t, p);
}

} // verus!
