//! The order things act in: ascending keys, whatever order they are listed in.

use vstd::prelude::*;

verus! {

/// How many of the turns `o`, from turn `p` on, go before something with `key`.
pub open spec fn place(keys: Seq<u64>, o: Seq<usize>, key: u64, p: int) -> int
    decreases o.len() - p,
{
    if p < 0 || p >= o.len() || keys[o[p] as int] > key {
        p
    } else {
        place(keys, o, key, p + 1)
    }
}

/// The indices of the first `n` keys by ascending key; equal keys keep their
/// order.
pub open spec fn turns_of(keys: Seq<u64>, n: int) -> Seq<usize>
    decreases n,
{
    if n <= 0 {
        Seq::empty()
    } else {
        let before = turns_of(keys, n - 1);
        before.insert(place(keys, before, keys[n - 1], 0), (n - 1) as usize)
    }
}

/// The indices of `keys` by ascending key; equal keys keep their order.
pub open spec fn turns(keys: Seq<u64>) -> Seq<usize> {
    turns_of(keys, keys.len() as int)
}

/// `o` lists each of `0..n` once, by ascending key.
pub open spec fn in_turn(keys: Seq<u64>, o: Seq<usize>, n: int) -> bool {
    &&& o.len() == n
    &&& forall|i: int| 0 <= i < n ==> #[trigger] o[i] < n
    &&& o.no_duplicates()
    &&& forall|i: int, j: int|
        0 <= i < j < n ==> keys[#[trigger] o[i] as int] <= keys[#[trigger] o[j] as int]
}

proof fn lemma_place(keys: Seq<u64>, o: Seq<usize>, key: u64, p: int)
    requires
        0 <= p <= o.len(),
    ensures
        p <= place(keys, o, key, p) <= o.len(),
        forall|i: int| p <= i < place(keys, o, key, p) ==> keys[#[trigger] o[i] as int] <= key,
        place(keys, o, key, p) < o.len() ==> keys[o[place(keys, o, key, p)] as int] > key,
    decreases o.len() - p,
{
    if p < o.len() && keys[o[p] as int] <= key {
        lemma_place(keys, o, key, p + 1);
    }
}

proof fn lemma_turns_of(keys: Seq<u64>, n: int)
    requires
        0 <= n <= keys.len(),
        keys.len() <= usize::MAX,
    ensures
        in_turn(keys, turns_of(keys, n), n),
    decreases n,
{
    if n > 0 {
        lemma_turns_of(keys, n - 1);
        let before = turns_of(keys, n - 1);
        let p = place(keys, before, keys[n - 1], 0);
        lemma_place(keys, before, keys[n - 1], 0);
        let o = turns_of(keys, n);
        assert forall|i: int| 0 <= i < n implies #[trigger] o[i] == (if i < p {
            before[i]
        } else if i == p {
            (n - 1) as usize
        } else {
            before[i - 1]
        }) by {}
        assert forall|i: int, j: int| 0 <= i < j < n implies keys[#[trigger] o[i] as int]
            <= keys[#[trigger] o[j] as int] by {
            if j > p && p < before.len() {
                assert(keys[before[p] as int] <= keys[before[j - 1] as int]);
            }
        }
        assert(o.no_duplicates());
    }
}

/// Everybody gets exactly one turn, and the turns go by ascending key.
pub proof fn everybody_gets_a_turn(keys: Seq<u64>)
    requires
        keys.len() <= usize::MAX,
    ensures
        in_turn(keys, turns(keys), keys.len() as int),
{
    lemma_turns_of(keys, keys.len() as int);
}

/// Where keys differ, there is only one such order: the order things are listed
/// in cannot reach the order they act in.
pub proof fn one_order(keys: Seq<u64>, a: Seq<usize>, b: Seq<usize>)
    requires
        keys.no_duplicates(),
        in_turn(keys, a, keys.len() as int),
        in_turn(keys, b, keys.len() as int),
    ensures
        a == b,
{
    lemma_same_prefix(keys, a, b, keys.len() as int);
    assert(a.take(keys.len() as int) =~= a);
    assert(b.take(keys.len() as int) =~= b);
}

/// Every index below `n` has a turn.
pub proof fn lemma_has_turn(keys: Seq<u64>, o: Seq<usize>, n: int, x: usize)
    requires
        in_turn(keys, o, n),
        0 <= x < n,
    ensures
        exists|i: int| 0 <= i < n && #[trigger] o[i] == x,
{
    let used = o.to_set();
    let bound = vstd::set_lib::set_int_range(0, n);
    o.unique_seq_to_set();
    if !used.contains(x) {
        vstd::set_lib::lemma_int_range(0, n);
        let ints = used.map(|y: usize| y as int);
        vstd::set_lib::lemma_map_size(used, ints, |y: usize| y as int);
        assert(ints.subset_of(bound.remove(x as int))) by {
            assert forall|v: int| ints.contains(v) implies bound.remove(x as int).contains(v) by {
                let y = choose|y: usize| used.contains(y) && v == y as int;
                assert(o.contains(y));
            }
        }
        vstd::set_lib::lemma_len_subset(ints, bound.remove(x as int));
        assert(false);
    }
    assert(o.contains(x));
}

proof fn lemma_same_prefix(keys: Seq<u64>, a: Seq<usize>, b: Seq<usize>, k: int)
    requires
        keys.no_duplicates(),
        in_turn(keys, a, keys.len() as int),
        in_turn(keys, b, keys.len() as int),
        0 <= k <= keys.len(),
    ensures
        a.take(k) == b.take(k),
    decreases k,
{
    if k > 0 {
        let n = keys.len() as int;
        lemma_same_prefix(keys, a, b, k - 1);
        assert forall|i: int| 0 <= i < k - 1 implies #[trigger] a[i] == b[i] by {
            assert(a.take(k - 1)[i] == b.take(k - 1)[i]);
        }
        let (x, y) = (a[k - 1], b[k - 1]);
        if x != y {
            lemma_has_turn(keys, b, n, x);
            lemma_has_turn(keys, a, n, y);
            let i = choose|i: int| 0 <= i < n && #[trigger] b[i] == x;
            let j = choose|j: int| 0 <= j < n && #[trigger] a[j] == y;
            if i < k - 1 {
                assert(a[i] == b[i]);
            }
            if j < k - 1 {
                assert(a[j] == b[j]);
            }
            assert(i > k - 1);
            assert(j > k - 1);
            assert(keys[b[k - 1] as int] <= keys[b[i] as int]);
            assert(keys[a[k - 1] as int] <= keys[a[j] as int]);
            assert(keys[x as int] == keys[y as int]);
        }
        assert(a.take(k) =~= b.take(k));
    }
}

/// The sum of `f` over the listed indices.
pub open spec fn total(f: spec_fn(int) -> nat, o: Seq<usize>) -> nat
    decreases o.len(),
{
    if o.len() == 0 {
        0
    } else {
        total(f, o.drop_last()) + f(o.last() as int)
    }
}

/// The sum of `f` over `0..n`.
pub open spec fn sum_to(f: spec_fn(int) -> nat, n: int) -> nat
    decreases n,
{
    if n <= 0 {
        0
    } else {
        sum_to(f, n - 1) + f(n - 1)
    }
}

proof fn lemma_total_remove(f: spec_fn(int) -> nat, o: Seq<usize>, j: int)
    requires
        0 <= j < o.len(),
    ensures
        total(f, o) == total(f, o.remove(j)) + f(o[j] as int),
    decreases o.len(),
{
    if j == o.len() - 1 {
        assert(o.remove(j) =~= o.drop_last());
    } else {
        lemma_total_remove(f, o.drop_last(), j);
        assert(o.remove(j).drop_last() =~= o.drop_last().remove(j));
        assert(o.remove(j).last() == o.last());
    }
}

/// A sum does not depend on the order the turns go in.
pub proof fn lemma_turns_sum(keys: Seq<u64>, f: spec_fn(int) -> nat, o: Seq<usize>, n: int)
    requires
        0 <= n,
        in_turn(keys, o, n),
    ensures
        total(f, o) == sum_to(f, n),
    decreases n,
{
    if n > 0 {
        let x = (n - 1) as usize;
        assert(o[0] < n);
        assert(n - 1 <= usize::MAX) by {
            if forall|i: int| 0 <= i < n ==> #[trigger] o[i] < n - 1 {
                lemma_crowded(o, n - 1);
            } else {
                let i = choose|i: int| 0 <= i < n && !(#[trigger] o[i] < n - 1);
                assert(o[i] == n - 1);
            }
        }
        lemma_has_turn(keys, o, n, x);
        let j = choose|j: int| 0 <= j < n && #[trigger] o[j] == x;
        let rest = o.remove(j);
        assert forall|i: int| 0 <= i < n - 1 implies #[trigger] rest[i] < n - 1 by {
            let from = if i < j {
                i
            } else {
                i + 1
            };
            assert(rest[i] == o[from]);
            assert(o[from] != o[j]);
        }
        assert(in_turn(keys, rest, n - 1)) by {
            assert forall|a: int, b: int| 0 <= a < b < n - 1 implies keys[#[trigger] rest[a] as int]
                <= keys[#[trigger] rest[b] as int] && rest[a] != rest[b] by {
                let fa = if a < j {
                    a
                } else {
                    a + 1
                };
                let fb = if b < j {
                    b
                } else {
                    b + 1
                };
                assert(rest[a] == o[fa] && rest[b] == o[fb] && fa < fb);
            }
        }
        lemma_total_remove(f, o, j);
        lemma_turns_sum(keys, f, rest, n - 1);
    } else {
        assert(o.len() == 0);
    }
}

/// No more than `m` different indices fit below `m`.
proof fn lemma_crowded(o: Seq<usize>, m: int)
    requires
        0 <= m,
        o.no_duplicates(),
        forall|i: int| 0 <= i < o.len() ==> #[trigger] o[i] < m,
    ensures
        o.len() <= m,
{
    let used = o.to_set();
    o.unique_seq_to_set();
    let ints = used.map(|y: usize| y as int);
    vstd::set_lib::lemma_map_size(used, ints, |y: usize| y as int);
    vstd::set_lib::lemma_int_range(0, m);
    let bound = vstd::set_lib::set_int_range(0, m);
    assert(ints.subset_of(bound)) by {
        assert forall|v: int| ints.contains(v) implies bound.contains(v) by {
            let y = choose|y: usize| used.contains(y) && v == y as int;
            assert(o.contains(y));
        }
    }
    vstd::set_lib::lemma_len_subset(ints, bound);
}

/// A sequence in another order.
pub open spec fn reordered<T>(all: Seq<T>, order: Seq<usize>) -> Seq<T> {
    Seq::new(order.len(), |p: int| all[order[p] as int])
}

proof fn lemma_ascending_unique<T>(s: Seq<T>, t: Seq<T>, key: spec_fn(T) -> u64)
    requires
        forall|i: int, j: int| 0 <= i < j < s.len() ==> key(#[trigger] s[i]) < key(#[trigger] s[j]),
        forall|i: int, j: int| 0 <= i < j < t.len() ==> key(#[trigger] t[i]) < key(#[trigger] t[j]),
        forall|x: T| #[trigger] s.contains(x) <==> t.contains(x),
    ensures
        s == t,
    decreases s.len(),
{
    if s.len() == 0 {
        if t.len() > 0 {
            assert(t.contains(t[0]));
            assert(s.contains(t[0]));
        }
        assert(s =~= t);
    } else {
        assert(s.contains(s.last()));
        assert(t.contains(s.last()));
        let j = choose|j: int| 0 <= j < t.len() && t[j] == s.last();
        assert(t.contains(t.last()));
        assert(s.contains(t.last()));
        let i = choose|i: int| 0 <= i < s.len() && s[i] == t.last();
        if j < t.len() - 1 {
            assert(key(t[j]) < key(t[t.len() - 1]));
            assert(i == s.len() - 1 || key(s[i]) < key(s[s.len() - 1]));
        }
        assert(s.last() == t.last());
        let (a, b) = (s.drop_last(), t.drop_last());
        assert forall|x: T| #[trigger] a.contains(x) <==> b.contains(x) by {
            if a.contains(x) {
                let p = choose|p: int| 0 <= p < a.len() && a[p] == x;
                assert(s[p] == x);
                assert(s.contains(x));
                let q = choose|q: int| 0 <= q < t.len() && t[q] == x;
                assert(key(s[p]) < key(s[s.len() - 1]));
                assert(b[q] == x);
            }
            if b.contains(x) {
                let p = choose|p: int| 0 <= p < b.len() && b[p] == x;
                assert(t[p] == x);
                assert(t.contains(x));
                assert(s.contains(x));
                let q = choose|q: int| 0 <= q < s.len() && s[q] == x;
                assert(key(t[p]) < key(t[t.len() - 1]));
                assert(a[q] == x);
            }
        }
        lemma_ascending_unique(a, b, key);
        assert(s =~= a.push(s.last()));
        assert(t =~= b.push(t.last()));
    }
}

proof fn lemma_reordered<T>(all: Seq<T>, key: spec_fn(T) -> u64)
    requires
        all.len() <= usize::MAX,
        all.map_values(key).no_duplicates(),
    ensures
        ({
            let r = reordered(all, turns(all.map_values(key)));
            &&& forall|x: T| #[trigger] r.contains(x) <==> all.contains(x)
            &&& forall|i: int, j: int|
                0 <= i < j < r.len() ==> key(#[trigger] r[i]) < key(#[trigger] r[j])
        }),
{
    let keys = all.map_values(key);
    let o = turns(keys);
    let r = reordered(all, o);
    everybody_gets_a_turn(keys);
    assert forall|x: T| #[trigger] r.contains(x) <==> all.contains(x) by {
        if r.contains(x) {
            let p = choose|p: int| 0 <= p < r.len() && r[p] == x;
            assert(all[o[p] as int] == x);
        }
        if all.contains(x) {
            let i = choose|i: int| 0 <= i < all.len() && all[i] == x;
            lemma_has_turn(keys, o, keys.len() as int, i as usize);
            let p = choose|p: int| 0 <= p < keys.len() && #[trigger] o[p] == i as usize;
            assert(r[p] == x);
        }
    }
    assert forall|i: int, j: int| 0 <= i < j < r.len() implies key(#[trigger] r[i]) < key(
        #[trigger] r[j],
    ) by {
        assert(o[i] != o[j]);
        assert(keys[o[i] as int] <= keys[o[j] as int]);
        assert(keys[o[i] as int] != keys[o[j] as int]);
    }
}

/// The order in which things are listed cannot reach an outcome: two lists of
/// the same things, whose keys differ, are one list once everybody has a turn.
pub proof fn listing_does_not_matter<T>(a: Seq<T>, b: Seq<T>, key: spec_fn(T) -> u64)
    requires
        a.len() <= usize::MAX,
        b.len() <= usize::MAX,
        a.map_values(key).no_duplicates(),
        b.map_values(key).no_duplicates(),
        forall|x: T| #[trigger] a.contains(x) <==> b.contains(x),
    ensures
        reordered(a, turns(a.map_values(key))) == reordered(b, turns(b.map_values(key))),
{
    lemma_reordered(a, key);
    lemma_reordered(b, key);
    let (s, t) = (
        reordered(a, turns(a.map_values(key))),
        reordered(b, turns(b.map_values(key))),
    );
    assert forall|x: T| #[trigger] s.contains(x) <==> t.contains(x) by {
        assert(s.contains(x) <==> a.contains(x));
        assert(t.contains(x) <==> b.contains(x));
    }
    lemma_ascending_unique(s, t, key);
}

/// The order in which things with these keys act.
pub fn turn_order(keys: &Vec<u64>) -> (r: Vec<usize>)
    ensures
        r@ == turns(keys@),
{
    let mut o: Vec<usize> = Vec::new();
    let mut n: usize = 0;
    while n < keys.len()
        invariant
            n <= keys@.len(),
            o@ == turns_of(keys@, n as int),
        decreases keys@.len() - n,
    {
        proof {
            lemma_turns_of(keys@, n as int);
            lemma_place(keys@, o@, keys@[n as int], 0);
        }
        let mut p: usize = 0;
        while p < o.len() && keys[o[p]] <= keys[n]
            invariant
                n < keys@.len(),
                p <= o@.len(),
                in_turn(keys@, o@, n as int),
                place(keys@, o@, keys@[n as int], 0) == place(keys@, o@, keys@[n as int], p as int),
            decreases o@.len() - p,
        {
            p = p + 1;
        }
        o.insert(p, n);
        n = n + 1;
    }
    o
}

/// `m` says where each thing of one list stands in another: both are as long,
/// nothing is lost, and the keys go along.
pub open spec fn relisted(a: Seq<u64>, b: Seq<u64>, m: Seq<usize>) -> bool {
    &&& m.len() == a.len() == b.len()
    &&& m.no_duplicates()
    &&& forall|i: int| 0 <= i < m.len() ==> (#[trigger] m[i]) < b.len() && b[m[i] as int] == a[i]
}

/// The same things have the same turns, wherever they are listed.
pub proof fn turns_follow_the_things(a: Seq<u64>, b: Seq<u64>, m: Seq<usize>)
    requires
        a.len() <= usize::MAX,
        b.no_duplicates(),
        relisted(a, b, m),
    ensures
        turns(b).len() == turns(a).len() == a.len(),
        forall|p: int| 0 <= p < a.len() ==> turns(a)[p] < a.len(),
        forall|p: int| 0 <= p < a.len() ==> (#[trigger] turns(b)[p]) == m[turns(a)[p] as int],
{
    let n = a.len() as int;
    let (x, y) = (turns(a), turns(b));
    everybody_gets_a_turn(a);
    everybody_gets_a_turn(b);
    let z = Seq::new(n as nat, |p: int| m[x[p] as int]);
    assert forall|p: int| 0 <= p < n implies #[trigger] z[p] < n by {
        assert(x[p] < n);
    }
    assert forall|i: int, j: int| 0 <= i < n && 0 <= j < n && i != j implies z[i] != z[j] by {
        assert(x[i] != x[j]);
        assert(x[i] < n && x[j] < n);
    }
    assert forall|i: int, j: int| 0 <= i < j < n implies b[#[trigger] z[i] as int]
        <= b[#[trigger] z[j] as int] by {
        assert(a[x[i] as int] <= a[x[j] as int]);
        assert(x[i] < n && x[j] < n);
        assert(m[x[i] as int] < n && m[x[j] as int] < n);
    }
    assert(in_turn(b, z, n));
    one_order(b, z, y);
}

proof fn lemma_stable(keys: Seq<u64>, n: int)
    requires
        0 <= n <= keys.len(),
        keys.len() <= usize::MAX,
    ensures
        forall|i: int, j: int|
            0 <= i < j < n && keys[(#[trigger] turns_of(keys, n)[i]) as int] == keys[(
            #[trigger] turns_of(keys, n)[j]) as int] ==> turns_of(keys, n)[i] < turns_of(keys, n)[j],
    decreases n,
{
    if n > 0 {
        lemma_stable(keys, n - 1);
        lemma_turns_of(keys, n - 1);
        lemma_turns_of(keys, n);
        let before = turns_of(keys, n - 1);
        let p = place(keys, before, keys[n - 1], 0);
        lemma_place(keys, before, keys[n - 1], 0);
        let o = turns_of(keys, n);
        assert forall|i: int| 0 <= i < n implies #[trigger] o[i] == (if i < p {
            before[i]
        } else if i == p {
            (n - 1) as usize
        } else {
            before[i - 1]
        }) by {}
        assert forall|i: int, j: int|
            0 <= i < j < n && keys[(#[trigger] o[i]) as int] == keys[(
            #[trigger] o[j]) as int] implies o[i] < o[j] by {
            if i == p {
                assert(keys[before[p] as int] <= keys[before[j - 1] as int]);
            } else if j == p {
                assert(before[i] < n - 1);
            }
        }
    }
}

/// Things with one key take their turns in the order they are listed in.
pub proof fn equal_keys_keep_their_order(keys: Seq<u64>, i: int, j: int)
    requires
        keys.len() <= usize::MAX,
        0 <= i < j < keys.len(),
        keys[turns(keys)[i] as int] == keys[turns(keys)[j] as int],
    ensures
        turns(keys)[i] < turns(keys)[j],
{
    lemma_stable(keys, keys.len() as int);
}

} // verus!
