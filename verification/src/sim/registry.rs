//! The simulation's own names: small numbers, issued once and never reused.
//!
//! An entity's bits are an allocation detail of one process. A `SimId` is the
//! place an entity was first identified at, which is the same in any process
//! that plays the same match.

use vstd::prelude::*;

use crate::sim::turns;
use crate::sim::turns::turn_order;
use crate::sim::world::Entity;

verus! {

/// A name the simulation issued.
#[derive(Clone, Copy, PartialEq, Eq, Structural, Debug, Hash)]
pub struct SimId(pub u64);

impl SimId {
    /// Names nothing.
    pub const UNIDENTIFIED: u64 = 0xffff_ffff_ffff_ffff;
}

/// Every entity that was ever identified, in the order it was.
#[derive(Clone, Debug)]
pub struct SimIds {
    known: Vec<Entity>,
}

impl View for SimIds {
    type V = Seq<Entity>;

    closed spec fn view(&self) -> Seq<Entity> {
        self.known@
    }
}

/// Where `e` is listed, from place `k` on.
pub open spec fn listed_from(all: Seq<Entity>, e: Entity, k: int) -> Option<int>
    decreases all.len() - k,
{
    if k < 0 || k >= all.len() {
        None
    } else if all[k] == e {
        Some(k)
    } else {
        listed_from(all, e, k + 1)
    }
}

/// The id of `e`, as a number.
pub open spec fn id_in(all: Seq<Entity>, e: Entity) -> Option<int> {
    listed_from(all, e, 0)
}

proof fn lemma_listed_from(all: Seq<Entity>, e: Entity, k: int)
    requires
        0 <= k <= all.len(),
    ensures
        listed_from(all, e, k) is None ==> forall|i: int| k <= i < all.len() ==> #[trigger] all[i] != e,
        listed_from(all, e, k) matches Some(i) ==> k <= i < all.len() && all[i] == e,
    decreases all.len() - k,
{
    if k < all.len() && all[k] != e {
        lemma_listed_from(all, e, k + 1);
    }
}

/// An entity has a name iff it was identified.
pub proof fn lemma_known(all: Seq<Entity>, e: Entity)
    ensures
        id_in(all, e) is Some <==> all.contains(e),
        id_in(all, e) matches Some(i) ==> 0 <= i < all.len() && all[i] == e,
{
    lemma_listed_from(all, e, 0);
    if id_in(all, e) is None && all.contains(e) {
        let i = choose|i: int| 0 <= i < all.len() && all[i] == e;
        assert(all[i] != e);
    }
}

/// The names after `e` was identified.
pub open spec fn issued(all: Seq<Entity>, e: Entity) -> Seq<Entity> {
    if all.contains(e) {
        all
    } else {
        all.push(e)
    }
}

/// The names after the first `k` of `things` were identified, one by one.
pub open spec fn all_issued(all: Seq<Entity>, things: Seq<Entity>, k: int) -> Seq<Entity>
    decreases k,
{
    if k <= 0 {
        all
    } else {
        issued(all_issued(all, things, k - 1), things[k - 1])
    }
}

/// Things by ascending entity.
pub open spec fn ascending(things: Seq<Entity>) -> Seq<Entity> {
    turns::reordered(things, turns::turns(things.map_values(|e: Entity| e.bits)))
}

impl Default for SimIds {
    fn default() -> (r: Self)
        ensures
            r@ == Seq::<Entity>::empty(),
    {
        SimIds { known: Vec::new() }
    }
}

impl SimIds {
    /// The name of `e`, if it has one.
    pub fn id_of(&self, e: Entity) -> (r: Option<SimId>)
        ensures
            r is Some == self@.contains(e),
            r matches Some(id) ==> id_in(self@, e) == Some(id.0 as int),
    {
        proof {
            lemma_known(self@, e);
        }
        let mut k: usize = 0;
        while k < self.known.len()
            invariant
                k <= self.known@.len(),
                self@ == self.known@,
                id_in(self@, e) is Some <==> self@.contains(e),
                id_in(self@, e) == listed_from(self@, e, k as int),
            decreases self.known@.len() - k,
        {
            if self.known[k] == e {
                return Some(SimId(k as u64));
            }
            k = k + 1;
        }
        None
    }

    /// The entity that was issued `id`.
    pub fn entity_of(&self, id: SimId) -> (r: Option<Entity>)
        ensures
            r == if id.0 < self@.len() {
                Some(self@[id.0 as int])
            } else {
                None
            },
    {
        let n: u64 = self.known.len() as u64;
        if id.0 < n {
            Some(self.known[id.0 as usize])
        } else {
            None
        }
    }

    /// Identify `e`: issue it the next name, unless it has one.
    pub fn issue(&mut self, e: Entity) -> (r: SimId)
        ensures
            final(self)@ == issued(old(self)@, e),
            id_in(final(self)@, e) == Some(r.0 as int),
    {
        match self.id_of(e) {
            Some(id) => id,
            None => {
                let id: u64 = self.known.len() as u64;
                self.known.push(e);
                proof {
                    lemma_known(self@, e);
                    assert(self@.last() == e);
                    assert(self@.contains(e));
                    let i = id_in(self@, e)->0;
                    assert(i < old(self)@.len() ==> old(self)@[i] == e);
                }
                SimId(id)
            },
        }
    }

    /// Identify everything in the world, by ascending entity.
    pub fn identify(&mut self, things: &Vec<Entity>)
        ensures
            final(self)@ == all_issued(
                old(self)@,
                ascending(things@),
                things@.len() as int,
            ),
    {
        let ghost names = things@.map_values(|e: Entity| e.bits);
        let mut keys: Vec<u64> = Vec::new();
        let mut i: usize = 0;
        while i < things.len()
            invariant
                i <= things@.len(),
                names == things@.map_values(|e: Entity| e.bits),
                keys@ == names.take(i as int),
            decreases things@.len() - i,
        {
            keys.push(things[i].bits);
            assert(keys@ =~= names.take(i + 1));
            i = i + 1;
        }
        assert(keys@ =~= names);
        let order = turn_order(&keys);
        proof {
            turns::everybody_gets_a_turn(names);
        }
        let ghost before = self@;
        let mut k: usize = 0;
        while k < order.len()
            invariant
                k <= order@.len() == things@.len(),
                names == things@.map_values(|e: Entity| e.bits),
                order@ == turns::turns(names),
                turns::in_turn(names, order@, things@.len() as int),
                self@ == all_issued(before, ascending(things@), k as int),
            decreases order@.len() - k,
        {
            assert(order@[k as int] < things@.len());
            assert(ascending(things@)[k as int] == things@[order@[k as int] as int]);
            self.issue(things[order[k]]);
            k = k + 1;
        }
    }

    pub fn len(&self) -> (r: usize)
        ensures
            r == self@.len(),
    {
        self.known.len()
    }
}

/// The order in which the world is listed reaches no name.
pub proof fn names_ignore_the_listing(all: Seq<Entity>, a: Seq<Entity>, b: Seq<Entity>)
    requires
        a.len() <= usize::MAX,
        b.len() <= usize::MAX,
        a.no_duplicates(),
        b.no_duplicates(),
        forall|e: Entity| #[trigger] a.contains(e) <==> b.contains(e),
    ensures
        all_issued(all, ascending(a), a.len() as int) == all_issued(
            all,
            ascending(b),
            b.len() as int,
        ),
{
    let key = |e: Entity| e.bits;
    assert forall|s: Seq<Entity>| #[trigger] s.no_duplicates() implies s.map_values(
        key,
    ).no_duplicates() by {
        let t = s.map_values(key);
        assert forall|i: int, j: int| 0 <= i < t.len() && 0 <= j < t.len() && i != j implies t[i]
            != t[j] by {
            assert(s[i] != s[j]);
        }
    }
    turns::listing_does_not_matter(a, b, key);
    turns::everybody_gets_a_turn(a.map_values(key));
    turns::everybody_gets_a_turn(b.map_values(key));
    assert(a.map_values(key) =~= a.map_values(|e: Entity| e.bits));
    assert(b.map_values(key) =~= b.map_values(|e: Entity| e.bits));
    assert(ascending(a).len() == a.len());
    assert(ascending(b).len() == b.len());
}

/// Names are never reused and never change: identifying something leaves every
/// name that was issued before where it is.
pub proof fn names_last(all: Seq<Entity>, new: Entity, e: Entity)
    requires
        all.contains(e),
    ensures
        id_in(all.push(new), e) == id_in(all, e),
{
    lemma_names_last(all, new, e, 0);
}

proof fn lemma_names_last(all: Seq<Entity>, new: Entity, e: Entity, k: int)
    requires
        0 <= k <= all.len(),
        exists|i: int| k <= i < all.len() && all[i] == e,
    ensures
        listed_from(all.push(new), e, k) == listed_from(all, e, k),
    decreases all.len() - k,
{
    if k < all.len() && all[k] != e {
        lemma_names_last(all, new, e, k + 1);
    }
}

/// A name resolves to the entity it was issued to.
pub proof fn names_resolve(all: Seq<Entity>, e: Entity)
    requires
        all.contains(e),
    ensures
        id_in(all, e) matches Some(i) && 0 <= i < all.len() && all[i] == e,
{
    lemma_known(all, e);
}

/// Identifying a list gives everything on it a name, the first time it comes up
/// and once: what was named keeps its place, and only what is on the list is
/// added.
pub proof fn everything_listed_is_named(all: Seq<Entity>, things: Seq<Entity>, k: int)
    requires
        0 <= k <= things.len(),
        all.no_duplicates(),
    ensures
        ({
            let r = all_issued(all, things, k);
            &&& r.no_duplicates()
            &&& all.len() <= r.len()
            &&& r.take(all.len() as int) == all
            &&& forall|i: int| 0 <= i < k ==> r.contains(#[trigger] things[i])
            &&& forall|p: int|
                all.len() <= p < r.len() ==> exists|i: int|
                    0 <= i < k && #[trigger] things[i] == #[trigger] r[p]
        }),
    decreases k,
{
    let r = all_issued(all, things, k);
    if k > 0 {
        everything_listed_is_named(all, things, k - 1);
        let before = all_issued(all, things, k - 1);
        let e = things[k - 1];
        if before.contains(e) {
            assert(r == before);
        } else {
            assert(r == before.push(e));
            assert(r[before.len() as int] == e);
            assert(r.take(all.len() as int) =~= before.take(all.len() as int));
        }
        assert forall|i: int| 0 <= i < k implies r.contains(#[trigger] things[i]) by {
            if i < k - 1 {
                assert(before.contains(things[i]));
                let p = choose|p: int| 0 <= p < before.len() && before[p] == things[i];
                assert(r[p] == things[i]);
            }
        }
        assert forall|p: int| all.len() <= p < r.len() implies exists|i: int|
            0 <= i < k && #[trigger] things[i] == #[trigger] r[p] by {
            if p < before.len() {
                assert(before[p] == r[p]);
                let j = choose|j: int| 0 <= j < k - 1 && #[trigger] things[j] == before[p];
                assert(things[j] == r[p]);
            } else {
                assert(things[k - 1] == r[p]);
            }
        }
    } else {
        assert(r.take(all.len() as int) =~= all);
    }
}

/// Things are listed by ascending entity, each of them.
pub proof fn things_ascend(things: Seq<Entity>, p: int, q: int)
    requires
        things.len() <= usize::MAX,
    ensures
        ascending(things).len() == things.len(),
        0 <= p < q < things.len() ==> ascending(things)[p].bits <= ascending(things)[q].bits,
        0 <= p < things.len() ==> things.contains(ascending(things)[p]) && ascending(
            things,
        ).contains(things[p]),
{
    let keys = things.map_values(|e: Entity| e.bits);
    let o = turns::turns(keys);
    turns::everybody_gets_a_turn(keys);
    if 0 <= p < q < things.len() {
        assert(keys[o[p] as int] <= keys[o[q] as int]);
    }
    if 0 <= p < things.len() {
        assert(things[o[p] as int] == ascending(things)[p]);
        turns::lemma_has_turn(keys, o, keys.len() as int, p as usize);
        let x = choose|x: int| 0 <= x < keys.len() && #[trigger] o[x] == p as usize;
        assert(ascending(things)[x] == things[p]);
    }
}

} // verus!
