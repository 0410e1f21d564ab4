//! A map from ticks, walked in tick order.

use std::collections::BTreeMap;

use vstd::prelude::*;
use vstd::std_specs::btree;
use vstd::std_specs::cmp::OrdSpec;
use vstd::std_specs::iter::IteratorSpec;

verus! {

/// Values by tick.
#[derive(Debug)]
pub struct TickMap<V> {
    map: BTreeMap<u32, V>,
}

impl<V> View for TickMap<V> {
    type V = Map<u32, V>;

    closed spec fn view(&self) -> Map<u32, V> {
        self.map@
    }
}

/// Ticks that a map lists in order ascend.
proof fn lemma_ascend(s: Seq<&u32>)
    requires
        btree::increasing_seq(s),
    ensures
        forall|i: int, j: int| 0 <= i < j < s.len() ==> *(#[trigger] s[i]) < *(#[trigger] s[j]),
{
    broadcast use vstd::laws_cmp::group_laws_cmp;

    assert(vstd::laws_cmp::obeys_cmp::<u32>());
    assert(vstd::laws_cmp::obeys_cmp::<&u32>());
    assert forall|i: int, j: int| 0 <= i < j < s.len() implies *(#[trigger] s[i]) < *(
    #[trigger] s[j]) by {
        assert(OrdSpec::cmp_spec(&s[i], &s[j]) is Less);
    }
}

impl<V> TickMap<V> {
    pub fn new() -> (r: Self)
        ensures
            r@ == Map::<u32, V>::empty(),
    {
        TickMap { map: BTreeMap::new() }
    }

    pub fn contains(&self, t: u32) -> (r: bool)
        ensures
            r == self@.contains_key(t),
    {
        self.map.contains_key(&t)
    }

    pub fn get(&self, t: u32) -> (r: Option<&V>)
        ensures
            r is Some == self@.contains_key(t),
            r matches Some(v) ==> *v == self@[t],
    {
        self.map.get(&t)
    }

    /// Put `v` at tick `t`, in place of what was there.
    pub fn insert(&mut self, t: u32, v: V)
        ensures
            final(self)@ == old(self)@.insert(t, v),
    {
        let _ = self.map.insert(t, v);
    }

    /// Take out what stands at tick `t`.
    pub fn remove(&mut self, t: u32) -> (r: Option<V>)
        ensures
            final(self)@ == old(self)@.remove(t),
            r is Some == old(self)@.contains_key(t),
            r matches Some(v) ==> v == old(self)@[t],
    {
        self.map.remove(&t)
    }

    /// The ticks below `n`, ascending.
    pub fn keys_below(&self, n: usize) -> (r: Vec<u32>)
        ensures
            forall|i: int|
                0 <= i < r@.len() ==> #[trigger] r@[i] < n && self@.contains_key(r@[i]),
            forall|i: int, j: int| 0 <= i < j < r@.len() ==> #[trigger] r@[i] < #[trigger] r@[j],
            forall|t: u32| #[trigger] self@.contains_key(t) && t < n ==> r@.contains(t),
    {
        let mut out: Vec<u32> = Vec::new();
        proof {
            lemma_ascend(btree::spec_keys_iter(&self.map).remaining());
        }
        for t in it: self.map.keys()
            invariant
                forall|i: int, j: int|
                    0 <= i < j < it.seq().len() ==> *(#[trigger] it.seq()[i]) < *(
                    #[trigger] it.seq()[j]),
                it.seq().unref().to_set() == self@.dom(),
                forall|i: int|
                    0 <= i < out@.len() ==> #[trigger] out@[i] < n && self@.contains_key(out@[i]),
                forall|i: int|
                    0 <= i < out@.len() && it.index() < it.seq().len() ==> #[trigger] out@[i]
                        < *it.seq()[it.index()],
                forall|i: int, j: int|
                    0 <= i < j < out@.len() ==> #[trigger] out@[i] < #[trigger] out@[j],
                forall|i: int|
                    0 <= i < it.index() && *(#[trigger] it.seq()[i]) < n ==> out@.contains(
                        *it.seq()[i],
                    ),
        {
            let ghost before = out@;
            if (*t as u64) < (n as u64) {
                out.push(*t);
            }
            proof {
                let keys = it.seq();
                let k = it.index();
                assert forall|i: int| 0 <= i <= k && *(#[trigger] keys[i]) < n implies out@.contains(
                    *keys[i],
                ) by {
                    if i < k {
                        let j = choose|j: int| 0 <= j < before.len() && before[j] == *keys[i];
                        assert(out@[j] == *keys[i]);
                    } else {
                        assert(out@[out@.len() - 1] == *t);
                    }
                }
            }
        }
        out
    }
}

} // verus!
