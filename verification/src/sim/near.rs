//! The nearest of some candidates, by distance and then by name.

use vstd::prelude::*;

use crate::float::F32;

verus! {

/// Something that could be chosen.
#[derive(Clone, Copy, Debug)]
pub struct Candidate {
    /// Squared distance.
    pub squared: F32,
    /// Decides between equal distances: the smaller one wins.
    pub key: u64,
    /// May it be chosen at all?
    pub open: bool,
}

/// Is `a` a worse choice than `b`? Distances that do not compare are decided by
/// the keys, as equal ones are.
pub open spec fn worse(a: Candidate, b: Candidate) -> bool {
    b.squared.less(a.squared) || (!a.squared.less(b.squared) && a.key > b.key)
}

/// The choice among the candidates from `k` on, with `best` as the choice so
/// far: a candidate replaces one that is worse.
pub open spec fn nearest_from(all: Seq<Candidate>, k: int, best: Option<int>) -> Option<int>
    decreases all.len() - k,
{
    if k < 0 || k >= all.len() {
        best
    } else if !all[k].open {
        nearest_from(all, k + 1, best)
    } else {
        match best {
            Some(b) => nearest_from(
                all,
                k + 1,
                if worse(all[b], all[k]) {
                    Some(k)
                } else {
                    best
                },
            ),
            None => nearest_from(all, k + 1, Some(k)),
        }
    }
}

/// Which candidate is chosen.
pub open spec fn nearest(all: Seq<Candidate>) -> Option<int> {
    nearest_from(all, 0, None)
}

/// Which candidate is chosen.
pub fn nearest_of(all: &Vec<Candidate>) -> (r: Option<usize>)
    ensures
        r is Some == nearest(all@) is Some,
        r matches Some(i) ==> nearest(all@) == Some(i as int) && i < all@.len() && all@[i as int].open,
{
    let mut best: Option<usize> = None;
    let mut k: usize = 0;
    while k < all.len()
        invariant
            k <= all@.len(),
            best matches Some(b) ==> b < k && all@[b as int].open,
            nearest(all@) == nearest_from(
                all@,
                k as int,
                match best {
                    Some(b) => Some(b as int),
                    None => None,
                },
            ),
        decreases all@.len() - k,
    {
        let c = all[k];
        if c.open {
            match best {
                Some(b) => {
                    let a = all[b];
                    if c.squared.lt(&a.squared) || (!a.squared.lt(&c.squared) && a.key > c.key) {
                        best = Some(k);
                    }
                },
                None => {
                    best = Some(k);
                },
            }
        }
        k = k + 1;
    }
    best
}

/// A choice is always an open candidate.
pub proof fn lemma_open(all: Seq<Candidate>, k: int, best: Option<int>)
    requires
        0 <= k <= all.len(),
        best matches Some(b) ==> 0 <= b < all.len() && all[b].open,
    ensures
        nearest_from(all, k, best) matches Some(b) ==> 0 <= b < all.len() && all[b].open,
    decreases all.len() - k,
{
    if k < all.len() {
        if !all[k].open {
            lemma_open(all, k + 1, best);
        } else {
            lemma_open(all, k + 1, Some(k));
            lemma_open(all, k + 1, best);
        }
    }
}

proof fn lemma_nearest_from(all: Seq<Candidate>, k: int, best: Option<int>)
    requires
        0 <= k <= all.len(),
        forall|i: int| 0 <= i < all.len() ==> !(#[trigger] all[i]).squared.nan(),
        best matches Some(b) ==> 0 <= b < k && all[b].open && forall|i: int|
            0 <= i < k && (#[trigger] all[i]).open ==> !worse(all[b], all[i]),
        best is None ==> forall|i: int| 0 <= i < k ==> !(#[trigger] all[i]).open,
    ensures
        ({
            let r = nearest_from(all, k, best);
            &&& r matches Some(b) ==> 0 <= b < all.len() && all[b].open && forall|i: int|
                0 <= i < all.len() && (#[trigger] all[i]).open ==> !worse(all[b], all[i])
            &&& r is None ==> forall|i: int| 0 <= i < all.len() ==> !(#[trigger] all[i]).open
        }),
    decreases all.len() - k,
{
    if k < all.len() {
        if !all[k].open {
            lemma_nearest_from(all, k + 1, best);
        } else {
            match best {
                Some(b) => {
                    if worse(all[b], all[k]) {
                        lemma_nearest_from(all, k + 1, Some(k));
                    } else {
                        lemma_nearest_from(all, k + 1, best);
                    }
                },
                None => {
                    lemma_nearest_from(all, k + 1, Some(k));
                },
            }
        }
    }
}

/// Where every distance is a number, the choice is the nearest candidate: none
/// is nearer, and of those equally near none has a smaller key. There is a
/// choice whenever a candidate is open.
pub proof fn the_choice_is_nearest(all: Seq<Candidate>)
    requires
        forall|i: int| 0 <= i < all.len() ==> !(#[trigger] all[i]).squared.nan(),
    ensures
        nearest(all) is None <==> forall|i: int| 0 <= i < all.len() ==> !(#[trigger] all[i]).open,
        nearest(all) matches Some(b) ==> 0 <= b < all.len() && all[b].open && forall|i: int|
            0 <= i < all.len() && (#[trigger] all[i]).open ==> all[b].squared.at_most(
                all[i].squared,
            ) && (all[b].squared.same(all[i].squared) ==> all[b].key <= all[i].key),
{
    lemma_nearest_from(all, 0, None);
}

} // verus!
