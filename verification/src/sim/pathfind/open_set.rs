//! The open set of the path search: a binary min-heap of `(f, g, cell)`
//! triples, ordered lexicographically.

use vstd::multiset::Multiset;
use vstd::prelude::*;

verus! {

/// One candidate: estimated total cost, cost so far, cell.
pub type Entry = (u64, u64, usize);

/// The lexicographic order of candidates.
pub open spec fn entry_le(a: Entry, b: Entry) -> bool {
    a.0 < b.0 || (a.0 == b.0 && (a.1 < b.1 || (a.1 == b.1 && a.2 <= b.2)))
}

fn entry_lt(a: Entry, b: Entry) -> (r: bool)
    ensures
        r == !entry_le(b, a),
{
    a.0 < b.0 || (a.0 == b.0 && (a.1 < b.1 || (a.1 == b.1 && a.2 < b.2)))
}

/// Every element but the one at `skip` is at least its parent.
spec fn heap_but_child(s: Seq<Entry>, skip: int) -> bool {
    forall|j: int|
        0 < j < s.len() && j != skip ==> entry_le(s[(j - 1) / 2], #[trigger] s[j])
}

/// Every element whose parent is not `skip` is at least its parent.
spec fn heap_but_parent(s: Seq<Entry>, skip: int) -> bool {
    forall|j: int|
        0 < j < s.len() && (j - 1) / 2 != skip ==> entry_le(s[(j - 1) / 2], #[trigger] s[j])
}

/// The children of `i` are at least the parent of `i`.
spec fn bridged(s: Seq<Entry>, i: int) -> bool {
    forall|j: int|
        0 < i && 0 < j < s.len() && (j - 1) / 2 == i ==> entry_le(
            s[(i - 1) / 2],
            #[trigger] s[j],
        )
}

proof fn lemma_swap_multiset(s: Seq<Entry>, i: int, j: int)
    requires
        0 <= i < s.len(),
        0 <= j < s.len(),
        i != j,
    ensures
        s.update(i, s[j]).update(j, s[i]).to_multiset() == s.to_multiset(),
{
    broadcast use vstd::multiset::group_multiset_axioms;

    vstd::seq_lib::to_multiset_update(s, i, s[j]);
    vstd::seq_lib::to_multiset_update(s.update(i, s[j]), j, s[i]);
    vstd::seq_lib::to_multiset_contains(s, s[i]);
    vstd::seq_lib::to_multiset_contains(s, s[j]);
    assert(s.update(i, s[j]).update(j, s[i]).to_multiset() =~= s.to_multiset());
}

/// The root of a heap is a least element.
proof fn lemma_root_least(s: Seq<Entry>, i: int)
    requires
        heap_but_child(s, 0),
        0 <= i < s.len(),
    ensures
        entry_le(s[0], s[i]),
    decreases i,
{
    if i > 0 {
        lemma_root_least(s, (i - 1) / 2);
        assert(entry_le(s[(i - 1) / 2], s[i]));
    }
}

/// A min-heap of candidates.
pub struct OpenSet {
    items: Vec<Entry>,
}

impl View for OpenSet {
    type V = Multiset<Entry>;

    closed spec fn view(&self) -> Multiset<Entry> {
        self.items@.to_multiset()
    }
}

impl OpenSet {
    pub closed spec fn wf(&self) -> bool {
        heap_but_child(self.items@, 0)
    }

    pub fn new() -> (r: Self)
        ensures
            r.wf(),
            r@ == Multiset::<Entry>::empty(),
    {
        let r = OpenSet { items: Vec::new() };
        proof {
            broadcast use vstd::multiset::group_multiset_axioms;

            assert(r.items@ =~= Seq::<Entry>::empty());
            r.items@.to_multiset_ensures();
            assert(r.items@.to_multiset().len() == 0);
            assert(r@ =~= Multiset::<Entry>::empty());
        }
        r
    }

    /// Add one candidate.
    pub fn push(&mut self, e: Entry)
        requires
            old(self).wf(),
        ensures
            final(self).wf(),
            final(self)@ == old(self)@.insert(e),
    {
        let ghost before = self.items@;
        self.items.push(e);
        proof {
            vstd::seq_lib::to_multiset_build(before, e);
        }
        let ghost all = self.items@.to_multiset();
        let mut i: usize = self.items.len() - 1;
        while i > 0
            invariant
                i < self.items@.len(),
                heap_but_child(self.items@, i as int),
                bridged(self.items@, i as int),
                self.items@.to_multiset() == all,
            ensures
                heap_but_child(self.items@, 0),
                self.items@.to_multiset() == all,
            decreases i,
        {
            let p: usize = (i - 1) / 2;
            let a: Entry = self.items[i];
            let b: Entry = self.items[p];
            if !entry_lt(a, b) {
                break ;
            }
            let ghost s = self.items@;
            proof {
                lemma_swap_multiset(s, i as int, p as int);
            }
            self.items.set(i, b);
            self.items.set(p, a);
            assert(self.items@ == s.update(i as int, s[p as int]).update(p as int, s[i as int]));
            assert forall|j: int|
                0 < j < self.items@.len() && j != p implies entry_le(
                self.items@[(j - 1) / 2],
                #[trigger] self.items@[j],
            ) by {
                if j == i {
                } else if (j - 1) / 2 == i {
                    assert(entry_le(s[p as int], s[j]));
                } else {
                    assert(entry_le(s[(j - 1) / 2], s[j]));
                }
            }
            assert forall|j: int|
                0 < p && 0 < j < self.items@.len() && (j - 1) / 2 == p implies entry_le(
                self.items@[(p - 1) / 2],
                #[trigger] self.items@[j],
            ) by {
                assert(entry_le(s[(p - 1) / 2], s[p as int]));
                if j != i {
                    assert(entry_le(s[p as int], s[j]));
                }
            }
            i = p;
        }
    }

    /// Take a least candidate out, if there is one.
    pub fn pop(&mut self) -> (r: Option<Entry>)
        requires
            old(self).wf(),
        ensures
            final(self).wf(),
            r is None <==> old(self)@.len() == 0,
            r is None ==> final(self)@ == old(self)@,
            r matches Some(e) ==> {
                &&& old(self)@.count(e) > 0
                &&& forall|x: Entry| old(self)@.count(x) > 0 ==> #[trigger] entry_le(e, x)
                &&& final(self)@ == old(self)@.remove(e)
                &&& final(self)@.len() + 1 == old(self)@.len()
            },
    {
        let ghost start = self.items@;
        proof {
            start.to_multiset_ensures();
        }
        let n: usize = self.items.len();
        if n == 0 {
            return None;
        }
        let top: Entry = self.items[0];
        proof {
            assert(start.contains(top));
            assert forall|x: Entry| start.to_multiset().count(x) > 0 implies #[trigger] entry_le(
                top,
                x,
            ) by {
                vstd::seq_lib::to_multiset_contains(start, x);
                let k = choose|k: int| 0 <= k < start.len() && start[k] == x;
                lemma_root_least(start, k);
            }
        }
        let last: Entry = self.items.pop().unwrap();
        let m: usize = self.items.len();
        if m == 0 {
            proof {
                assert(start.remove(0) =~= self.items@);
                vstd::seq_lib::to_multiset_remove(start, 0);
                self.items@.to_multiset_ensures();
            }
            return Some(top);
        }
        proof {
            let d = start.drop_last();
            assert(start.remove(n - 1) =~= d);
            vstd::seq_lib::to_multiset_remove(start, n - 1);
            vstd::seq_lib::to_multiset_update(d, 0, last);
            broadcast use vstd::multiset::group_multiset_axioms;

            vstd::seq_lib::to_multiset_contains(start, last);
            vstd::seq_lib::to_multiset_contains(d, top);
            assert(d[0] == top);
            assert(d.update(0, last).to_multiset() =~= start.to_multiset().remove(top));
        }
        self.items.set(0, last);
        let ghost all = start.to_multiset().remove(top);
        let mut i: usize = 0;
        assert forall|j: int|
            0 < j < self.items@.len() && (j - 1) / 2 != 0 implies entry_le(
            self.items@[(j - 1) / 2],
            #[trigger] self.items@[j],
        ) by {
            assert(entry_le(start[(j - 1) / 2], start[j]));
        }
        loop
            invariant
                i < self.items@.len(),
                m == self.items@.len(),
                heap_but_parent(self.items@, i as int),
                bridged(self.items@, i as int),
                self.items@.to_multiset() == all,
            ensures
                heap_but_child(self.items@, 0),
                self.items@.to_multiset() == all,
            decreases m - i,
        {
            if i >= m / 2 {
                assert forall|j: int|
                    0 < j < self.items@.len() && j != 0 implies entry_le(
                    self.items@[(j - 1) / 2],
                    #[trigger] self.items@[j],
                ) by {
                    if (j - 1) / 2 == i {
                        assert(j >= 2 * i + 1);
                    }
                }
                break ;
            }
            let l: usize = 2 * i + 1;
            let mut c: usize = l;
            if l + 1 < m && entry_lt(self.items[l + 1], self.items[l]) {
                c = l + 1;
            }
            let a: Entry = self.items[i];
            let b: Entry = self.items[c];
            if !entry_lt(b, a) {
                assert forall|j: int|
                    0 < j < self.items@.len() && j != 0 implies entry_le(
                    self.items@[(j - 1) / 2],
                    #[trigger] self.items@[j],
                ) by {
                    if (j - 1) / 2 == i {
                        assert(j == l || j == l + 1);
                    }
                }
                break ;
            }
            let ghost s = self.items@;
            proof {
                lemma_swap_multiset(s, i as int, c as int);
            }
            self.items.set(i, b);
            self.items.set(c, a);
            assert(self.items@ == s.update(i as int, s[c as int]).update(c as int, s[i as int]));
            assert((c - 1) / 2 == i);
            assert forall|j: int|
                0 < j < self.items@.len() && (j - 1) / 2 != c implies entry_le(
                self.items@[(j - 1) / 2],
                #[trigger] self.items@[j],
            ) by {
                if j == i {
                    assert(entry_le(s[(i - 1) / 2], s[c as int]));
                } else if (j - 1) / 2 == i {
                    assert(j == l || j == l + 1);
                } else {
                    assert(entry_le(s[(j - 1) / 2], s[j]));
                }
            }
            assert forall|j: int|
                0 < c && 0 < j < self.items@.len() && (j - 1) / 2 == c implies entry_le(
                self.items@[(c - 1) / 2],
                #[trigger] self.items@[j],
            ) by {
                assert(j != i && j != c);
                assert(entry_le(s[(j - 1) / 2], s[j]));
            }
            i = c;
        }
        proof {
            self.items@.to_multiset_ensures();
        }
        Some(top)
    }
}

} // verus!
