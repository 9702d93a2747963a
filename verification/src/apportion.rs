//! Largest-remainder apportionment.
use vstd::prelude::*;
use crate::order::{
    ints, is_order, key_before, lemma_order_injective, lemma_order_positions, lemma_sum_add,
    lemma_sum_bounds, lemma_sum_le, lemma_sum_scale, lemma_sum_update, stable_order, sum,
};

verus! {

/// The part of an amount that an entry gets before remainders are handed out.
pub open spec fn floor_share(amount: int, scores: Seq<int>, i: int) -> int {
    (amount * scores[i]) / sum(scores)
}

/// What the floor of an entry leaves over, in units of the total score.
pub open spec fn remainder_of(amount: int, scores: Seq<int>, i: int) -> int {
    (amount * scores[i]) % sum(scores)
}

pub open spec fn floors(amount: int, scores: Seq<int>) -> Seq<int> {
    Seq::new(scores.len(), |i: int| floor_share(amount, scores, i))
}

/// What the floors leave over of the amount.
pub open spec fn leftover(amount: int, scores: Seq<int>) -> int {
    amount - sum(floors(amount, scores))
}

/// The entries that come before entry `i` when remainders are handed out:
/// those with a larger remainder, and earlier ones with the same remainder.
pub open spec fn ahead(amount: int, scores: Seq<int>, i: int) -> Set<int> {
    Set::new(
        |j: int|
            0 <= j < scores.len() && (remainder_of(amount, scores, j) > remainder_of(
                amount,
                scores,
                i,
            ) || (remainder_of(amount, scores, j) == remainder_of(amount, scores, i) && j < i)),
    )
}

/// The share of one entry: its floor, and one more unit for as many entries as
/// the floors leave units over.
pub open spec fn share(amount: int, scores: Seq<int>, i: int) -> int {
    floor_share(amount, scores, i) + if ahead(amount, scores, i).len() < leftover(amount, scores) {
        1int
    } else {
        0int
    }
}

/// An amount divided in proportion to scores, by largest remainders.
pub open spec fn apportioned(amount: int, scores: Seq<int>) -> Seq<int> {
    Seq::new(scores.len(), |i: int| share(amount, scores, i))
}

pub open spec fn wide(s: Seq<u128>) -> Seq<int> {
    Seq::new(s.len(), |i: int| s[i] as int)
}

/// Floors and remainders add up to the amount.
pub proof fn lemma_leftover(amount: int, scores: Seq<int>)
    requires
        amount >= 0,
        sum(scores) > 0,
        forall|i: int| 0 <= i < scores.len() ==> 0 <= #[trigger] scores[i],
    ensures
        0 <= leftover(amount, scores) < scores.len(),
        sum(Seq::new(scores.len(), |i: int| remainder_of(amount, scores, i))) == sum(scores)
            * leftover(amount, scores),
        forall|i: int|
            0 <= i < scores.len() ==> 0 <= #[trigger] remainder_of(amount, scores, i) < sum(scores),
        forall|i: int|
            0 <= i < scores.len() ==> 0 <= #[trigger] floor_share(amount, scores, i) <= amount,
{
    let w = sum(scores);
    let n = scores.len();
    let rems = Seq::new(n, |i: int| remainder_of(amount, scores, i));
    let fl = floors(amount, scores);
    let scaled = Seq::new(n, |i: int| w * fl[i]);
    let products = Seq::new(n, |i: int| amount * scores[i]);
    lemma_sum_bounds(scores, 0);
    assert forall|i: int| 0 <= i < n implies 0 <= #[trigger] rems[i] < w && products[i] == scaled[i]
        + rems[i] && 0 <= fl[i] <= amount by {
        let p = amount * scores[i];
        vstd::arithmetic::div_mod::lemma_fundamental_div_mod(p, w);
        assert(scores[i] <= w);
        assert(0 <= p <= amount * w) by (nonlinear_arith)
            requires
                p == amount * scores[i],
                0 <= amount,
                0 <= scores[i] <= w,
        ;
        vstd::arithmetic::div_mod::lemma_mod_bound(p, w);
        vstd::arithmetic::div_mod::lemma_div_pos_is_pos(p, w);
        vstd::arithmetic::div_mod::lemma_div_is_ordered(p, amount * w, w);
        vstd::arithmetic::div_mod::lemma_div_by_multiple(amount, w);
    }
    lemma_sum_add(scaled, rems, products);
    lemma_sum_scale(fl, w, scaled);
    lemma_sum_scale(scores, amount, products);
    let l = leftover(amount, scores);
    assert(sum(rems) == w * l) by (nonlinear_arith)
        requires
            amount * w == w * sum(fl) + sum(rems),
            l == amount - sum(fl),
    ;
    lemma_sum_bounds(rems, 0);
    let caps = Seq::new(n, |i: int| w - 1);
    assert forall|i: int| 0 <= i < n implies #[trigger] rems[i] <= caps[i] by {}
    lemma_sum_le(rems, caps);
    let ones = Seq::new(n, |i: int| 1int);
    lemma_sum_scale(ones, w - 1, caps);
    lemma_sum_ones(ones);
    assert(n > 0) by {
        if n == 0 {
            assert(sum(scores) == 0);
        }
    }
    assert(0 <= l < n) by (nonlinear_arith)
        requires
            0 <= w * l <= (w - 1) * n,
            w > 0,
            n > 0,
    ;
    assert forall|i: int| 0 <= i < n implies 0 <= #[trigger] remainder_of(amount, scores, i)
        < w by {
        assert(0 <= rems[i] < w);
    }
    assert forall|i: int| 0 <= i < n implies 0 <= #[trigger] floor_share(amount, scores, i)
        <= amount by {
        assert(0 <= rems[i]);
    }
}

proof fn lemma_sum_ones(s: Seq<int>)
    requires
        forall|i: int| 0 <= i < s.len() ==> #[trigger] s[i] == 1,
    ensures
        sum(s) == s.len(),
    decreases s.len(),
{
    if s.len() > 0 {
        lemma_sum_ones(s.drop_last());
    }
}

/// Only an entry with a remainder gets an extra unit.
pub proof fn lemma_extra_needs_remainder(amount: int, scores: Seq<int>, i: int)
    requires
        amount >= 0,
        sum(scores) > 0,
        forall|i: int| 0 <= i < scores.len() ==> 0 <= #[trigger] scores[i],
        0 <= i < scores.len(),
        share(amount, scores, i) > floor_share(amount, scores, i),
    ensures
        remainder_of(amount, scores, i) > 0,
{
    lemma_leftover(amount, scores);
    if remainder_of(amount, scores, i) <= 0 {
        let rems = Seq::new(scores.len(), |i: int| remainder_of(amount, scores, i));
        let w = sum(scores);
        assert forall|k: int| 0 <= k < rems.len() implies 0 <= #[trigger] rems[k] < w by {
            assert(0 <= remainder_of(amount, scores, k) < w);
        }
        lemma_positive_count(rems, w);
        let positive = Set::new(|j: int| 0 <= j < rems.len() && rems[j] > 0);
        let front = ahead(amount, scores, i);
        let range = vstd::set_lib::set_int_range(0, scores.len() as int);
        vstd::set_lib::lemma_int_range(0, scores.len() as int);
        assert(front.subset_of(range));
        vstd::set_lib::lemma_len_subset(front, range);
        assert(positive.subset_of(front)) by {
            assert forall|j: int| positive.contains(j) implies front.contains(j) by {
                assert(remainder_of(amount, scores, j) == rems[j]);
            }
        }
        vstd::set_lib::lemma_len_subset(positive, front);
        let l = leftover(amount, scores);
        let p = positive.len() as int;
        assert(p >= l) by (nonlinear_arith)
            requires
                w * l <= p * w,
                w > 0,
        ;
    }
}

/// A sum of numbers below `w` is at most `w` times the count of positive ones.
proof fn lemma_positive_count(s: Seq<int>, w: int)
    requires
        forall|i: int| 0 <= i < s.len() ==> 0 <= #[trigger] s[i] < w,
        w > 0,
    ensures
        Set::new(|j: int| 0 <= j < s.len() && s[j] > 0).finite(),
        sum(s) <= Set::new(|j: int| 0 <= j < s.len() && s[j] > 0).len() * w,
    decreases s.len(),
{
    let p = Set::new(|j: int| 0 <= j < s.len() && s[j] > 0);
    if s.len() == 0 {
        assert(p =~= Set::empty());
        assert(0 * w == 0) by (nonlinear_arith);
    } else {
        let d = s.drop_last();
        let q = Set::new(|j: int| 0 <= j < d.len() && d[j] > 0);
        assert forall|i: int| 0 <= i < d.len() implies 0 <= #[trigger] d[i] < w by {
            assert(0 <= s[i] < w);
        }
        lemma_positive_count(d, w);
        let last = s.len() - 1;
        assert(0 <= s[last] < w);
        if s[last] > 0 {
            assert(p =~= q.insert(last));
            let k = q.len() as int;
            assert((k + 1) * w == k * w + w) by (nonlinear_arith);
        } else {
            assert(p =~= q);
        }
    }
}

/// Divides an amount in proportion to scores. The floors are handed out first,
/// then one unit each in order of the remainders, the first entry first where
/// remainders are equal. Nothing is lost and nothing is added. The last entry
/// that got an extra unit is named too.
pub fn largest_remainder(amount: u64, scores: &[u128], total: u128) -> (result: (
    Vec<u64>,
    Option<usize>,
))
    requires
        total == sum(wide(scores@)),
        total > 0,
        forall|i: int| 0 <= i < scores@.len() ==> amount * (#[trigger] scores@[i]) <= u128::MAX,
    ensures
        ints(result.0@) == apportioned(amount as int, wide(scores@)),
        sum(ints(result.0@)) == amount,
        result.1 is Some <==> leftover(amount as int, wide(scores@)) > 0,
        result.1 matches Some(last) ==> last < scores@.len() && ahead(
            amount as int,
            wide(scores@),
            last as int,
        ).len() == leftover(amount as int, wide(scores@)) - 1,
        forall|i: int|
            0 <= i < result.0@.len() && (#[trigger] result.0@[i]) > floor_share(
                amount as int,
                wide(scores@),
                i,
            ) ==> remainder_of(amount as int, wide(scores@), i) > 0,
{
    let ghost a = amount as int;
    let ghost w = wide(scores@);
    proof {
        lemma_leftover(a, w);
    }
    let mut shares: Vec<u64> = Vec::new();
    let mut keys: Vec<(u128, u128)> = Vec::new();
    let mut placed: u64 = 0;
    let mut i: usize = 0;
    assert(floors(a, w).take(0) =~= Seq::empty());
    while i < scores.len()
        invariant
            i <= scores.len(),
            a == amount,
            w == wide(scores@),
            total == sum(w),
            total > 0,
            forall|i: int|
                0 <= i < scores@.len() ==> amount * (#[trigger] scores@[i]) <= u128::MAX,
            shares@.len() == i,
            keys@.len() == i,
            forall|j: int| 0 <= j < i ==> #[trigger] shares@[j] == floor_share(a, w, j),
            forall|j: int|
                0 <= j < i ==> #[trigger] keys@[j] == ((u128::MAX - remainder_of(a, w, j)) as u128, 0u128),
            placed == sum(floors(a, w).take(i as int)),
            0 <= leftover(a, w),
            forall|i: int|
                0 <= i < w.len() ==> 0 <= #[trigger] remainder_of(a, w, i) < sum(w),
            forall|i: int| 0 <= i < w.len() ==> 0 <= #[trigger] floor_share(a, w, i) <= a,
        decreases scores.len() - i,
    {
        proof {
            assert(0 <= remainder_of(a, w, i as int) < sum(w));
            assert(0 <= floor_share(a, w, i as int) <= a);
            assert(w[i as int] == scores@[i as int]);
            assert(amount * scores@[i as int] >= 0) by (nonlinear_arith)
                requires
                    amount >= 0,
                    scores@[i as int] >= 0,
            ;
            let fl = floors(a, w);
            assert forall|k: int| 0 <= k < fl.len() implies 0 <= #[trigger] fl[k] by {
                assert(0 <= floor_share(a, w, k));
            }
            lemma_sum_bounds(fl, i + 1);
            assert(fl.take(i + 1).drop_last() =~= fl.take(i as int));
        }
        let numerator: u128 = amount as u128 * scores[i];
        let floor: u64 = (numerator / total) as u64;
        shares.push(floor);
        keys.push((u128::MAX - numerator % total, 0));
        placed = placed + floor;
        i += 1;
    }
    assert(floors(a, w).take(i as int) =~= floors(a, w));
    let over: u64 = amount - placed;
    let order = stable_order(keys.as_slice());
    let ghost base = ints(shares@);
    assert(base =~= floors(a, w));
    let mut k: usize = 0;
    proof {
        lemma_order_injective(keys@, order@);
        assert(scores@.len() == keys.len());
    }
    while (k as u64) < over
        invariant
            k <= over,
            over == leftover(a, w),
            a == amount,
            w == wide(scores@),
            over < w.len(),
            w.len() == scores@.len() <= usize::MAX,
            keys@.len() == scores@.len(),
            shares@.len() == scores@.len(),
            base == floors(a, w),
            is_order(keys@, order@),
            order@.no_duplicates(),
            forall|i: int| 0 <= i < w.len() ==> 0 <= #[trigger] floor_share(a, w, i) <= a,
            sum(w) > 0,
            forall|i: int| 0 <= i < w.len() ==> 0 <= #[trigger] w[i],
            sum(ints(shares@)) == sum(base) + k,
            forall|j: int|
                0 <= j < shares@.len() ==> #[trigger] shares@[j] == base[j] + if order@.take(
                    k as int,
                ).contains(j as usize) {
                    1int
                } else {
                    0int
                },
        decreases over - k,
    {
        let at = order[k];
        let ghost was = shares@;
        proof {
            if order@.take(k as int).contains(at) {
                let b = choose|b: int| 0 <= b < k && order@.take(k as int)[b] == at;
                assert(order@[b] == order@[k as int]);
            }
            assert(was[at as int] == base[at as int]);
            assert(base[at as int] == floor_share(a, w, at as int));
            if base[at as int] == a {
                // A floor that takes the whole amount leaves nothing over.
                let fl = floors(a, w);
                assert forall|k: int| 0 <= k < fl.len() implies 0 <= #[trigger] fl[k] by {
                    assert(0 <= floor_share(a, w, k));
                }
                lemma_sum_bounds(fl, 0);
                assert(fl[at as int] <= sum(fl));
                assert(false);
            }
        }
        shares.set(at, shares[at] + 1);
        proof {
            assert(ints(shares@) =~= ints(was).update(at as int, was[at as int] + 1));
            lemma_sum_update(ints(was), at as int, was[at as int] + 1);
            assert forall|j: int| 0 <= j < shares@.len() implies #[trigger] shares@[j] == base[j]
                + if order@.take(k + 1).contains(j as usize) {
                1int
            } else {
                0int
            } by {
                let now = order@.take(k + 1);
                let then = order@.take(k as int);
                assert(now =~= then.push(at));
                if j == at {
                    assert(now[k as int] == at);
                } else if then.contains(j as usize) {
                    let b = choose|b: int| 0 <= b < then.len() && then[b] == j as usize;
                    assert(now[b] == j as usize);
                } else if now.contains(j as usize) {
                    let b = choose|b: int| 0 <= b < now.len() && now[b] == j as usize;
                    assert(b < k);
                    assert(then[b] == j as usize);
                }
            }
        }
        k += 1;
    }
    proof {
        assert forall|j: int| 0 <= j < shares@.len() implies #[trigger] shares@[j] == share(
            a,
            w,
            j,
        ) by {
            assert(order@.contains(j as usize));
            let p = choose|p: int| 0 <= p < order@.len() && order@[p] == j as usize;
            lemma_order_positions(keys@, order@, p);
            lemma_ahead_is_prefix(a, w, keys@, order@, p);
            let front = order@.take(k as int);
            if p < k {
                assert(front[p] == j as usize);
            } else if front.contains(j as usize) {
                let b = choose|b: int| 0 <= b < front.len() && front[b] == j as usize;
                assert(order@[b] == order@[p]);
            }
        }
        assert(ints(shares@) =~= apportioned(a, w));
        assert forall|i: int|
            0 <= i < shares@.len() && (#[trigger] shares@[i]) > floor_share(
                a,
                w,
                i,
            ) implies remainder_of(a, w, i) > 0 by {
            lemma_extra_needs_remainder(a, w, i);
        }
    }
    let last: Option<usize> = if over == 0 {
        None
    } else {
        let at = order[(over - 1) as usize];
        proof {
            lemma_ahead_is_prefix(a, w, keys@, order@, over - 1);
        }
        Some(at)
    };
    (shares, last)
}

/// As many entries are ahead of an entry as its position in the order says.
proof fn lemma_ahead_is_prefix(
    amount: int,
    scores: Seq<int>,
    keys: Seq<(u128, u128)>,
    order: Seq<usize>,
    p: int,
)
    requires
        is_order(keys, order),
        keys.len() == scores.len() <= usize::MAX,
        forall|j: int|
            0 <= j < keys.len() ==> #[trigger] keys[j] == (
                (u128::MAX - remainder_of(amount, scores, j)) as u128,
                0u128,
            ) && 0 <= remainder_of(amount, scores, j) <= u128::MAX,
        0 <= p < order.len(),
    ensures
        ahead(amount, scores, order[p] as int).finite(),
        ahead(amount, scores, order[p] as int).len() == p,
{
    lemma_order_injective(keys, order);
    lemma_order_positions(keys, order, p);
    let prefix = Seq::new(p as nat, |k: int| order[k] as int);
    let set = ahead(amount, scores, order[p] as int);
    assert forall|j: int| set.contains(j) <==> prefix.to_set().contains(j) by {
        if set.contains(j) {
            let u = j as usize;
            assert(key_before(keys, u, order[p]));
            assert(order.take(p).contains(u));
            let b = choose|b: int| 0 <= b < p && order.take(p)[b] == u;
            assert(prefix[b] == j);
        }
        if prefix.contains(j) {
            let b = choose|b: int| 0 <= b < p && prefix[b] == j;
            assert(key_before(keys, order[b], order[p]));
        }
    }
    assert(set =~= prefix.to_set());
    assert(prefix.no_duplicates());
    prefix.unique_seq_to_set();
}

/// The sum of an indicator sequence is the size of the set it indicates.
proof fn lemma_indicator_sum(set: Set<int>, s: Seq<int>)
    requires
        forall|i: int|
            0 <= i < s.len() ==> #[trigger] s[i] == (if set.contains(i) {
                1int
            } else {
                0int
            }),
        forall|i: int| #[trigger] set.contains(i) ==> 0 <= i < s.len(),
    ensures
        set.finite(),
        sum(s) == set.len(),
    decreases s.len(),
{
    if s.len() == 0 {
        assert(set =~= Set::empty());
    } else {
        let last = s.len() - 1;
        let d = s.drop_last();
        let rest = set.remove(last);
        assert forall|i: int| 0 <= i < d.len() implies #[trigger] d[i] == (if rest.contains(i) {
            1int
        } else {
            0int
        }) by {
            assert(s[i] == d[i]);
        }
        lemma_indicator_sum(rest, d);
        if set.contains(last) {
            assert(set =~= rest.insert(last));
        } else {
            assert(set =~= rest);
        }
    }
}

/// The places of two different entries in the order of remainders differ.
proof fn lemma_ranks_differ(amount: int, scores: Seq<int>, i: int, j: int)
    requires
        0 <= i < scores.len(),
        0 <= j < scores.len(),
        i != j,
    ensures
        ahead(amount, scores, i).finite(),
        ahead(amount, scores, i).len() < scores.len(),
        ahead(amount, scores, i).len() != ahead(amount, scores, j).len(),
{
    let n = scores.len() as int;
    let range = vstd::set_lib::set_int_range(0, n);
    vstd::set_lib::lemma_int_range(0, n);
    let a = ahead(amount, scores, i);
    let b = ahead(amount, scores, j);
    assert(a.subset_of(range.remove(i)));
    vstd::set_lib::lemma_len_subset(a, range.remove(i));
    assert(b.subset_of(range));
    vstd::set_lib::lemma_len_subset(b, range);
    if a.contains(j) {
        assert(b.insert(j).subset_of(a));
        vstd::set_lib::lemma_len_subset(b.insert(j), a);
    } else {
        assert(b.contains(i));
        assert(a.insert(i).subset_of(b));
        vstd::set_lib::lemma_len_subset(a.insert(i), b);
    }
}

/// The shares add up to the amount.
pub proof fn lemma_apportioned_sum(amount: int, scores: Seq<int>)
    requires
        amount >= 0,
        sum(scores) > 0,
        forall|i: int| 0 <= i < scores.len() ==> 0 <= #[trigger] scores[i],
    ensures
        sum(apportioned(amount, scores)) == amount,
{
    lemma_leftover(amount, scores);
    let n = scores.len() as int;
    let l = leftover(amount, scores);
    let range = vstd::set_lib::set_int_range(0, n);
    vstd::set_lib::lemma_int_range(0, n);
    vstd::set_lib::lemma_int_range(0, l);
    vstd::set_lib::lemma_int_range(l, n);
    let rank = |i: int| ahead(amount, scores, i).len() as int;
    let lucky = range.filter(|i: int| rank(i) < l);
    let others = range.filter(|i: int| rank(i) >= l);
    assert forall|i: int| range.contains(i) implies 0 <= #[trigger] rank(i) < n by {
        let r = range.remove(i);
        assert(ahead(amount, scores, i).subset_of(r));
        vstd::set_lib::lemma_len_subset(ahead(amount, scores, i), r);
    }
    assert forall|i: int, j: int| range.contains(i) && range.contains(j) && i != j implies rank(i)
        != rank(j) by {
        lemma_ranks_differ(amount, scores, i, j);
    }
    let image = lucky.map(rank);
    let image2 = others.map(rank);
    vstd::set_lib::lemma_map_size(lucky, image, rank);
    vstd::set_lib::lemma_map_size(others, image2, rank);
    assert(image.subset_of(vstd::set_lib::set_int_range(0, l)));
    assert(image2.subset_of(vstd::set_lib::set_int_range(l, n)));
    vstd::set_lib::lemma_len_subset(image, vstd::set_lib::set_int_range(0, l));
    vstd::set_lib::lemma_len_subset(image2, vstd::set_lib::set_int_range(l, n));
    assert(others =~= range.difference(lucky));
    vstd::set_lib::lemma_set_disjoint_lens(lucky, others);
    assert(lucky + others =~= range);
    let extra = Seq::new(
        scores.len(),
        |i: int|
            if lucky.contains(i) {
                1int
            } else {
                0int
            },
    );
    lemma_indicator_sum(lucky, extra);
    assert forall|i: int| 0 <= i < n implies #[trigger] apportioned(amount, scores)[i] == floors(
        amount,
        scores,
    )[i] + extra[i] by {
        assert(range.contains(i));
        assert(rank(i) == ahead(amount, scores, i).len());
    }
    lemma_sum_add(floors(amount, scores), extra, apportioned(amount, scores));
}

} // verus!
