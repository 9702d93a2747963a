//! Sums and stable orders of sequences.
use vstd::prelude::*;
use vstd::std_specs::btree::*;
use vstd::std_specs::cmp::OrdSpec;
use std::collections::BTreeMap;

verus! {

/// The sum of a sequence.
pub open spec fn sum(s: Seq<int>) -> int
    decreases s.len(),
{
    if s.len() == 0 {
        0
    } else {
        sum(s.drop_last()) + s.last()
    }
}

/// Numbers of machine width as integers.
pub open spec fn ints(s: Seq<u64>) -> Seq<int> {
    Seq::new(s.len(), |i: int| s[i] as int)
}

/// One more element adds itself to the sum.
pub proof fn lemma_sum_push(s: Seq<int>, x: int)
    ensures
        sum(s.push(x)) == sum(s) + x,
{
    assert(s.push(x).drop_last() =~= s);
}

/// Changing one element changes the sum by the difference.
pub proof fn lemma_sum_update(s: Seq<int>, i: int, x: int)
    requires
        0 <= i < s.len(),
    ensures
        sum(s.update(i, x)) == sum(s) - s[i] + x,
    decreases s.len(),
{
    if i == s.len() - 1 {
        assert(s.update(i, x).drop_last() =~= s.drop_last());
    } else {
        lemma_sum_update(s.drop_last(), i, x);
        assert(s.update(i, x).drop_last() =~= s.drop_last().update(i, x));
    }
}

/// Zeros sum to zero.
pub proof fn lemma_sum_zeros(s: Seq<int>)
    requires
        forall|i: int| 0 <= i < s.len() ==> #[trigger] s[i] == 0,
    ensures
        sum(s) == 0,
    decreases s.len(),
{
    if s.len() > 0 {
        lemma_sum_zeros(s.drop_last());
    }
}

/// Sums respect element-wise order.
pub proof fn lemma_sum_le(s: Seq<int>, t: Seq<int>)
    requires
        s.len() == t.len(),
        forall|i: int| 0 <= i < s.len() ==> #[trigger] s[i] <= t[i],
    ensures
        sum(s) <= sum(t),
    decreases s.len(),
{
    if s.len() > 0 {
        assert forall|i: int| 0 <= i < s.drop_last().len() implies #[trigger] s.drop_last()[i]
            <= t.drop_last()[i] by {
            assert(s[i] <= t[i]);
        }
        lemma_sum_le(s.drop_last(), t.drop_last());
        assert(s[s.len() - 1] <= t[s.len() - 1]);
    }
}

/// The sum of element-wise sums.
pub proof fn lemma_sum_add(s: Seq<int>, t: Seq<int>, u: Seq<int>)
    requires
        s.len() == t.len() == u.len(),
        forall|i: int| 0 <= i < s.len() ==> #[trigger] u[i] == s[i] + t[i],
    ensures
        sum(u) == sum(s) + sum(t),
    decreases s.len(),
{
    if s.len() > 0 {
        assert forall|i: int| 0 <= i < s.drop_last().len() implies #[trigger] u.drop_last()[i]
            == s.drop_last()[i] + t.drop_last()[i] by {
            assert(u[i] == s[i] + t[i]);
        }
        lemma_sum_add(s.drop_last(), t.drop_last(), u.drop_last());
        assert(u[s.len() - 1] == s[s.len() - 1] + t[s.len() - 1]);
    }
}

/// The sum of a scaled sequence.
pub proof fn lemma_sum_scale(s: Seq<int>, k: int, u: Seq<int>)
    requires
        s.len() == u.len(),
        forall|i: int| 0 <= i < s.len() ==> #[trigger] u[i] == k * s[i],
    ensures
        sum(u) == k * sum(s),
    decreases s.len(),
{
    if s.len() > 0 {
        assert forall|i: int| 0 <= i < s.drop_last().len() implies #[trigger] u.drop_last()[i] == k
            * s.drop_last()[i] by {
            assert(u[i] == k * s[i]);
        }
        lemma_sum_scale(s.drop_last(), k, u.drop_last());
        assert(u[s.len() - 1] == k * s[s.len() - 1]);
        let a = sum(s.drop_last());
        let b = s.last();
        assert(k * (a + b) == k * a + k * b) by (nonlinear_arith);
    } else {
        assert(k * 0 == 0) by (nonlinear_arith);
    }
}

/// A sum of natural numbers bounds each prefix and each element.
pub proof fn lemma_sum_bounds(s: Seq<int>, n: int)
    requires
        0 <= n <= s.len(),
        forall|i: int| 0 <= i < s.len() ==> 0 <= #[trigger] s[i],
    ensures
        0 <= sum(s.take(n)) <= sum(s),
        forall|i: int| 0 <= i < s.len() ==> #[trigger] s[i] <= sum(s),
    decreases s.len(),
{
    if s.len() > 0 {
        let d = s.drop_last();
        assert forall|i: int| 0 <= i < d.len() implies 0 <= #[trigger] d[i] by {
            assert(0 <= s[i]);
        }
        assert(0 <= s[s.len() - 1]);
        if n == s.len() {
            lemma_sum_bounds(d, d.len() as int);
            assert(d.take(d.len() as int) =~= d);
            assert(s.take(n) =~= s);
        } else {
            lemma_sum_bounds(d, n);
            assert(d.take(n) =~= s.take(n));
        }
        assert forall|i: int| 0 <= i < s.len() implies #[trigger] s[i] <= sum(s) by {
            lemma_sum_bounds(d, 0);
            if i < d.len() {
                assert(d[i] <= sum(d));
            }
        }
    } else {
        assert(s.take(n) =~= s);
    }
}

/// The indices of a sequence in the order of their keys, equal keys in the
/// order of the indices.
pub open spec fn is_order(keys: Seq<(u128, u128)>, order: Seq<usize>) -> bool {
    &&& order.len() == keys.len()
    &&& forall|a: int| 0 <= a < order.len() ==> (#[trigger] order[a]) < keys.len()
    &&& forall|a: int, b: int|
        0 <= a < b < order.len() ==> key_before(keys, #[trigger] order[a], #[trigger] order[b])
    &&& forall|i: usize| i < keys.len() ==> #[trigger] order.contains(i)
}

/// The order of pairs.
pub open spec fn pair_lt(x: (u128, u128), y: (u128, u128)) -> bool {
    x.0 < y.0 || (x.0 == y.0 && x.1 < y.1)
}

pub open spec fn key_before(keys: Seq<(u128, u128)>, i: usize, j: usize) -> bool {
    pair_lt(keys[i as int], keys[j as int]) || (keys[i as int] == keys[j as int] && i < j)
}

/// An order names no index twice.
pub proof fn lemma_order_injective(keys: Seq<(u128, u128)>, order: Seq<usize>)
    requires
        is_order(keys, order),
    ensures
        order.no_duplicates(),
{
    assert forall|a: int, b: int| 0 <= a < order.len() && 0 <= b < order.len() && a != b implies
        order[a] != order[b] by {
        if a < b {
            assert(key_before(keys, order[a], order[b]));
        } else {
            assert(key_before(keys, order[b], order[a]));
        }
    }
}

/// Whatever comes before the element at position `k` stands at an earlier
/// position.
pub proof fn lemma_order_positions(keys: Seq<(u128, u128)>, order: Seq<usize>, k: int)
    requires
        is_order(keys, order),
        0 <= k < order.len(),
    ensures
        forall|j: usize|
            j < keys.len() ==> (key_before(keys, j, order[k]) <==> #[trigger] order.take(
                k,
            ).contains(j)),
{
    assert forall|j: usize| j < keys.len() implies (key_before(keys, j, order[k])
        <==> #[trigger] order.take(k).contains(j)) by {
        if order.take(k).contains(j) {
            let a = choose|a: int| 0 <= a < k && order.take(k)[a] == j;
            assert(order[a] == j);
            assert(key_before(keys, order[a], order[k]));
        }
        if key_before(keys, j, order[k]) {
            assert(order.contains(j));
            let a = choose|a: int| 0 <= a < order.len() && order[a] == j;
            if a > k {
                assert(key_before(keys, order[k], order[a]));
            }
            assert(a < k);
            assert(order.take(k)[a] == j);
        }
    }
}

spec fn lawful() -> bool {
    vstd::laws_cmp::obeys_cmp::<((u128, u128), usize)>() && key_obeys_cmp_spec::<((u128, u128), usize)>()
}

spec fn key_at(keys: Seq<(u128, u128)>, i: usize) -> (u128, u128) {
    keys[i as int]
}

proof fn lemma_increasing_pairs(seen: Seq<((u128, u128), usize)>, a: int, b: int)
    requires
        lawful(),
        increasing_seq(seen),
        0 <= a < b < seen.len(),
    ensures
        pair_lt(seen[a].0, seen[b].0) || (seen[a].0 == seen[b].0 && seen[a].1 < seen[b].1),
{
    broadcast use group_btree_axioms;

    assert(seen[a].cmp_spec(&seen[b]) is Less);
}

proof fn lemma_lawful()
    ensures
        lawful(),
{
    broadcast use vstd::laws_cmp::group_laws_cmp;
    broadcast use group_btree_axioms;

    assert(vstd::laws_cmp::obeys_cmp::<u128>());
    assert(vstd::laws_cmp::obeys_cmp::<(u128, u128)>());
    assert(vstd::laws_cmp::obeys_cmp::<usize>());
    assert(vstd::laws_cmp::obeys_cmp::<((u128, u128), usize)>());
}

/// Sorts the indices of a sequence by their keys, stably.
pub fn stable_order(keys: &[(u128, u128)]) -> (order: Vec<usize>)
    ensures
        is_order(keys@, order@),
{
    broadcast use group_btree_axioms;

    proof {
        lemma_lawful();
    }
    let mut tagged: BTreeMap<((u128, u128), usize), ()> = BTreeMap::new();
    let mut i: usize = 0;
    while i < keys.len()
        invariant
            i <= keys.len(),
            lawful(),
            forall|k: ((u128, u128), usize)| #[trigger]
                tagged@.contains_key(k) <==> k.1 < i && k.0 == key_at(keys@, k.1),
            tagged@.dom().finite(),
            tagged@.dom().len() == i,
        decreases keys.len() - i,
    {
        assert(!tagged@.contains_key((key_at(keys@, i), i)));
        tagged.insert((keys[i], i), ());
        i += 1;
    }
    let mut order: Vec<usize> = Vec::new();
    let ghost mut seen = Seq::<((u128, u128), usize)>::empty();
    for entry in it: tagged.iter()
        invariant
            it.seq().len() == keys@.len(),
            lawful(),
            forall|k: ((u128, u128), usize)| #[trigger]
                tagged@.contains_key(k) <==> k.1 < keys@.len() && k.0 == key_at(keys@, k.1),
            forall|k: ((u128, u128), usize)| #[trigger]
                tagged@.contains_key(k) ==> exists|i: int|
                    0 <= i < it.seq().len() && *(#[trigger] it.seq()[i]).0 == k,
            forall|i: int|
                0 <= i < it.seq().len() ==> tagged@.contains_key(*(#[trigger] it.seq()[i]).0),
            order@.len() == it.index(),
            seen.len() == it.index(),
            increasing_seq(it.seq().map_values(|kv: (&((u128, u128), usize), &())| *kv.0)),
            it.index() == it.seq().len() ==> seen =~= it.seq().map_values(
                |kv: (&((u128, u128), usize), &())| *kv.0,
            ),
            forall|i: int| 0 <= i < it.index() ==> #[trigger] seen[i] == *it.seq()[i].0,
            it.index() == it.seq().len() ==> forall|k: ((u128, u128), usize)| #[trigger]
                tagged@.contains_key(k) ==> seen.contains(k),
            forall|i: int| 0 <= i < it.index() ==> tagged@.contains_key(#[trigger] seen[i]),
            forall|i: int| 0 <= i < it.index() ==> #[trigger] order@[i] == seen[i].1,
    {
        order.push(entry.0.1);
        proof {
            seen = seen.push(*entry.0);
        }
        assert forall|k: ((u128, u128), usize)| #[trigger]
            tagged@.contains_key(k) && it.index() + 1 == it.seq().len() implies seen.contains(
            k,
        ) by {
            let i = choose|i: int| 0 <= i < it.seq().len() && *(#[trigger] it.seq()[i]).0 == k;
            assert(seen[i] == k);
        }
    }
    proof {
        assert forall|a: int| 0 <= a < order@.len() implies (#[trigger] order@[a])
            < keys@.len() by {
            assert(tagged@.contains_key(seen[a]));
        }
        assert forall|a: int, b: int| 0 <= a < b < order@.len() implies key_before(
            keys@,
            #[trigger] order@[a],
            #[trigger] order@[b],
        ) by {
            assert(tagged@.contains_key(seen[a]));
            assert(tagged@.contains_key(seen[b]));
            lemma_increasing_pairs(seen, a, b);
        }
        assert forall|i: usize| i < keys@.len() implies #[trigger] order@.contains(i) by {
            assert(tagged@.contains_key((key_at(keys@, i), i)));
            let a = choose|a: int| 0 <= a < seen.len() && seen[a] == (key_at(keys@, i), i);
            assert(order@[a] == i);
        }
    }
    order
}

/// The sum of two joined sequences.
pub proof fn lemma_sum_concat(s: Seq<int>, t: Seq<int>)
    ensures
        sum(s + t) == sum(s) + sum(t),
    decreases t.len(),
{
    if t.len() == 0 {
        assert(s + t =~= s);
    } else {
        lemma_sum_concat(s, t.drop_last());
        assert((s + t).drop_last() =~= s + t.drop_last());
    }
}

/// Strictly ascending numbers.
pub open spec fn ids_ascending(s: Seq<u64>) -> bool {
    forall|i: int, j: int| 0 <= i < j < s.len() ==> (#[trigger] s[i]) < (#[trigger] s[j])
}

/// The numbers of a set in ascending order.
pub open spec fn ordered_ids(set: Set<u64>) -> Seq<u64> {
    choose|s: Seq<u64>| ids_ascending(s) && s.to_set() == set
}

/// An ascending sequence is determined by the set of its elements.
pub proof fn lemma_ids_unique(s: Seq<u64>, t: Seq<u64>)
    requires
        ids_ascending(s),
        ids_ascending(t),
        s.to_set() == t.to_set(),
    ensures
        s == t,
    decreases s.len(),
{
    if s.len() == 0 {
        if t.len() > 0 {
            assert(t.to_set().contains(t[0]));
            assert(s.contains(t[0]));
        }
        assert(s =~= t);
    } else {
        assert(s.to_set().contains(s.last()));
        assert(t.contains(s.last()));
        let k = choose|k: int| 0 <= k < t.len() && t[k] == s.last();
        assert(t.to_set().contains(t.last()));
        assert(s.contains(t.last()));
        let m = choose|m: int| 0 <= m < s.len() && s[m] == t.last();
        assert(s[m] <= s.last());
        assert(t[k] <= t.last());
        let s1 = s.drop_last();
        let t1 = t.drop_last();
        assert forall|x: u64| s1.to_set().contains(x) <==> t1.to_set().contains(x) by {
            if s1.contains(x) {
                let i = choose|i: int| 0 <= i < s1.len() && s1[i] == x;
                assert(s[i] < s[s.len() - 1]);
                assert(s.to_set().contains(s[i]));
                assert(t.contains(x));
                let j = choose|j: int| 0 <= j < t.len() && t[j] == x;
                assert(t1[j] == x);
            }
            if t1.contains(x) {
                let i = choose|i: int| 0 <= i < t1.len() && t1[i] == x;
                assert(t[i] < t[t.len() - 1]);
                assert(t.to_set().contains(t[i]));
                assert(s.contains(x));
                let j = choose|j: int| 0 <= j < s.len() && s[j] == x;
                assert(s1[j] == x);
            }
        }
        assert(s1.to_set() =~= t1.to_set());
        lemma_ids_unique(s1, t1);
        assert(s =~= s1.push(s.last()));
        assert(t =~= t1.push(t.last()));
    }
}

/// The keys of a map in ascending order.
pub fn sorted_keys<V>(map: &BTreeMap<u64, V>) -> (ids: Vec<u64>)
    ensures
        ids_ascending(ids@),
        ids@.to_set() == map@.dom(),
        ids@ == ordered_ids(map@.dom()),
{
    broadcast use vstd::laws_cmp::group_laws_cmp;
    broadcast use group_btree_axioms;

    let mut ids: Vec<u64> = Vec::new();
    for entry in it: map.iter()
        invariant
            vstd::laws_cmp::obeys_cmp::<u64>(),
            forall|k: u64| #[trigger]
                map@.contains_key(k) ==> exists|i: int|
                    0 <= i < it.seq().len() && *(#[trigger] it.seq()[i]).0 == k,
            forall|i: int| 0 <= i < it.seq().len() ==> map@.contains_key(*(#[trigger] it.seq()[i]).0),
            ids@.len() == it.index(),
            increasing_seq(it.seq().map_values(|kv: (&u64, &V)| *kv.0)),
            it.index() == it.seq().len() ==> ids@ =~= it.seq().map_values(
                |kv: (&u64, &V)| *kv.0,
            ),
            forall|i: int| 0 <= i < it.index() ==> #[trigger] ids@[i] == *it.seq()[i].0,
            it.index() == it.seq().len() ==> forall|k: u64| #[trigger]
                map@.contains_key(k) ==> ids@.contains(k),
            forall|i: int| 0 <= i < it.index() ==> map@.contains_key(#[trigger] ids@[i]),
    {
        ids.push(*entry.0);
        assert forall|k: u64| #[trigger]
            map@.contains_key(k) && it.index() + 1 == it.seq().len() implies ids@.contains(k) by {
            let i = choose|i: int| 0 <= i < it.seq().len() && *(#[trigger] it.seq()[i]).0 == k;
            assert(ids@[i] == k);
        }
    }
    proof {
        assert forall|i: int, j: int| 0 <= i < j < ids@.len() implies (#[trigger] ids@[i]) < (
        #[trigger] ids@[j]) by {
            assert(ids@[i].cmp_spec(&ids@[j]) is Less);
        }
        assert forall|k: u64| ids@.to_set().contains(k) <==> map@.dom().contains(k) by {
            if map@.dom().contains(k) {
                assert(map@.contains_key(k));
            }
            if ids@.contains(k) {
                let i = choose|i: int| 0 <= i < ids@.len() && ids@[i] == k;
                assert(map@.contains_key(ids@[i]));
            }
        }
        assert(ids@.to_set() =~= map@.dom());
        lemma_ids_unique(ids@, ordered_ids(map@.dom()));
    }
    ids
}

/// Files a value under a number.
pub fn put<V>(map: &mut BTreeMap<u64, V>, id: u64, value: V)
    ensures
        final(map)@ == old(map)@.insert(id, value),
{
    broadcast use vstd::laws_cmp::group_laws_cmp;

    map.insert(id, value);
}

/// The value that is filed under a number.
pub fn look<V>(map: &BTreeMap<u64, V>, id: u64) -> (value: Option<&V>)
    ensures
        value == (if map@.contains_key(id) {
            Some(&map@[id])
        } else {
            None
        }),
{
    broadcast use vstd::laws_cmp::group_laws_cmp;
    broadcast use group_btree_axioms;

    map.get(&id)
}

/// Takes the value that is filed under a number out.
pub fn take_out<V>(map: &mut BTreeMap<u64, V>, id: u64) -> (value: Option<V>)
    ensures
        final(map)@ == old(map)@.remove(id),
        value == (if old(map)@.contains_key(id) {
            Some(old(map)@[id])
        } else {
            None
        }),
{
    broadcast use vstd::laws_cmp::group_laws_cmp;
    broadcast use group_btree_axioms;

    map.remove(&id)
}

/// A sequence that ascends in a strict order is determined by the set of its
/// elements.
pub proof fn lemma_strictly_sorted_unique<A>(s: Seq<A>, t: Seq<A>, lt: spec_fn(A, A) -> bool)
    requires
        forall|x: A, y: A| #[trigger] lt(x, y) ==> !lt(y, x),
        forall|i: int, j: int| 0 <= i < j < s.len() ==> lt(#[trigger] s[i], #[trigger] s[j]),
        forall|i: int, j: int| 0 <= i < j < t.len() ==> lt(#[trigger] t[i], #[trigger] t[j]),
        s.to_set() == t.to_set(),
    ensures
        s == t,
    decreases s.len(),
{
    if s.len() == 0 {
        if t.len() > 0 {
            assert(t.to_set().contains(t[0]));
            assert(s.contains(t[0]));
        }
        assert(s =~= t);
    } else {
        assert(s.to_set().contains(s.last()));
        assert(t.contains(s.last()));
        let k = choose|k: int| 0 <= k < t.len() && t[k] == s.last();
        assert(t.to_set().contains(t.last()));
        assert(s.contains(t.last()));
        let m = choose|m: int| 0 <= m < s.len() && s[m] == t.last();
        if k < t.len() - 1 {
            assert(lt(t[k], t[t.len() - 1]));
            if m < s.len() - 1 {
                assert(lt(s[m], s[s.len() - 1]));
            }
            assert(false);
        }
        let s1 = s.drop_last();
        let t1 = t.drop_last();
        assert forall|x: A| s1.to_set().contains(x) <==> t1.to_set().contains(x) by {
            if s1.contains(x) {
                let i = choose|i: int| 0 <= i < s1.len() && s1[i] == x;
                assert(lt(s[i], s[s.len() - 1]));
                assert(s.to_set().contains(s[i]));
                assert(t.contains(x));
                let j = choose|j: int| 0 <= j < t.len() && t[j] == x;
                assert(t1[j] == x);
            }
            if t1.contains(x) {
                let i = choose|i: int| 0 <= i < t1.len() && t1[i] == x;
                assert(lt(t[i], t[t.len() - 1]));
                assert(t.to_set().contains(t[i]));
                assert(s.contains(x));
                let j = choose|j: int| 0 <= j < s.len() && s[j] == x;
                assert(s1[j] == x);
            }
        }
        assert(s1.to_set() =~= t1.to_set());
        lemma_strictly_sorted_unique(s1, t1, lt);
        assert(s =~= s1.push(s.last()));
        assert(t =~= t1.push(t.last()));
    }
}

/// The sum of a slice, where it is representable.
pub fn checked_sum(amounts: &[u64]) -> (total: Option<u64>)
    ensures
        total is Some <==> sum(ints(amounts@)) <= u64::MAX,
        total matches Some(t) ==> t == sum(ints(amounts@)),
{
    let ghost s = ints(amounts@);
    let mut total: u64 = 0;
    let mut i: usize = 0;
    assert(s.take(0) =~= Seq::empty());
    while i < amounts.len()
        invariant
            i <= amounts.len(),
            s == ints(amounts@),
            total == sum(s.take(i as int)),
        decreases amounts.len() - i,
    {
        proof {
            assert(s.take(i + 1).drop_last() =~= s.take(i as int));
            lemma_sum_bounds(s, i + 1);
        }
        match total.checked_add(amounts[i]) {
            Some(next) => {
                total = next;
            },
            None => {
                return None;
            },
        }
        i += 1;
    }
    assert(s.take(i as int) =~= s);
    Some(total)
}

} // verus!
