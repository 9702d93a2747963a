//! Capacity-safe apportionment by repeated saturation.
use vstd::prelude::*;
use crate::apportion::{apportioned, floor_share, largest_remainder, lemma_leftover, remainder_of, wide};
use crate::order::{
    ints, lemma_sum_bounds, lemma_sum_le, lemma_sum_push, lemma_sum_scale, lemma_sum_update,
    lemma_sum_zeros, sum,
};

verus! {

/// The elements at the listed places.
pub open spec fn pick(s: Seq<int>, places: Seq<int>) -> Seq<int> {
    Seq::new(places.len(), |x: int| s[places[x]])
}

/// A sequence with values written to the listed places, one after the other.
pub open spec fn scatter(s: Seq<int>, places: Seq<int>, values: Seq<int>) -> Seq<int>
    decreases places.len(),
{
    if places.len() == 0 {
        s
    } else {
        scatter(s, places.drop_last(), values.drop_last()).update(places.last(), values.last())
    }
}

/// The claim of each live cell: its capacity times its weight.
pub open spec fn claims(cap: Seq<int>, weight: Seq<int>, live: Seq<int>) -> Seq<int> {
    Seq::new(live.len(), |x: int| cap[live[x]] * weight[live[x]])
}

/// Whether the proportional share of a cell exceeds its capacity, where the
/// share can be computed.
pub open spec fn bursts(
    cap: Seq<int>,
    weight: Seq<int>,
    live: Seq<int>,
    remaining: int,
    i: int,
) -> bool {
    &&& remaining * (cap[i] * weight[i]) <= u128::MAX
    &&& cap[i] > 0
    &&& remaining * weight[i] > sum(claims(cap, weight, live))
}

/// The live cells whose share exceeds their capacity.
pub open spec fn bursting(
    cap: Seq<int>,
    weight: Seq<int>,
    live: Seq<int>,
    remaining: int,
) -> Seq<int> {
    live.filter(|i: int| bursts(cap, weight, live, remaining, i))
}

/// The live cells whose share fits.
pub open spec fn fitting(
    cap: Seq<int>,
    weight: Seq<int>,
    live: Seq<int>,
    remaining: int,
) -> Seq<int> {
    live.filter(|i: int| !bursts(cap, weight, live, remaining, i))
}

/// Whether the share of some live cell cannot be computed.
pub open spec fn overflows(
    cap: Seq<int>,
    weight: Seq<int>,
    live: Seq<int>,
    remaining: int,
) -> bool {
    exists|x: int|
        0 <= x < live.len() && remaining * (cap[#[trigger] live[x]] * weight[live[x]]) > u128::MAX
}

/// Apportions what remains to the live cells in proportion to their claims.
/// Cells whose share exceeds their capacity are filled first and leave; once
/// all shares fit, largest remainders settle the rest. Nothing comes out where
/// a share cannot be computed.
pub open spec fn fill(
    cap: Seq<int>,
    weight: Seq<int>,
    live: Seq<int>,
    remaining: int,
    targets: Seq<int>,
) -> Option<Seq<int>>
    decreases live.len(),
{
    if remaining <= 0 || sum(claims(cap, weight, live)) == 0 {
        Some(targets)
    } else if bursting(cap, weight, live, remaining).len() > 0 {
        let full = bursting(cap, weight, live, remaining);
        proof {
            lemma_filter_parts(
                live,
                |i: int| bursts(cap, weight, live, remaining, i),
                |i: int| !bursts(cap, weight, live, remaining, i),
            );
        }
        fill(
            cap,
            weight,
            fitting(cap, weight, live, remaining),
            remaining - sum(pick(cap, full)),
            scatter(targets, full, pick(cap, full)),
        )
    } else if overflows(cap, weight, live, remaining) {
        None
    } else {
        Some(scatter(targets, live, apportioned(remaining, claims(cap, weight, live))))
    }
}

/// A filter and its complement split a sequence.
pub proof fn lemma_filter_parts(s: Seq<int>, p: spec_fn(int) -> bool, q: spec_fn(int) -> bool)
    requires
        forall|i: int| #[trigger] q(i) == !p(i),
    ensures
        s.filter(p).len() + s.filter(q).len() == s.len(),
        forall|f: Seq<int>|
            sum(#[trigger] pick(f, s)) == sum(pick(f, s.filter(p))) + sum(pick(f, s.filter(q))),
    decreases s.len(),
{
    reveal(Seq::filter);
    if s.len() > 0 {
        let d = s.drop_last();
        lemma_filter_parts(d, p, q);
        assert forall|f: Seq<int>|
            sum(#[trigger] pick(f, s)) == sum(pick(f, s.filter(p))) + sum(pick(f, s.filter(q))) by {
            assert(pick(f, s) =~= pick(f, d).push(f[s.last()]));
            lemma_sum_push(pick(f, d), f[s.last()]);
            if p(s.last()) {
                assert(s.filter(p) == d.filter(p).push(s.last()));
                assert(pick(f, s.filter(p)) =~= pick(f, d.filter(p)).push(f[s.last()]));
                lemma_sum_push(pick(f, d.filter(p)), f[s.last()]);
                assert(s.filter(q) == d.filter(q));
            } else {
                assert(s.filter(q) == d.filter(q).push(s.last()));
                assert(pick(f, s.filter(q)) =~= pick(f, d.filter(q)).push(f[s.last()]));
                lemma_sum_push(pick(f, d.filter(q)), f[s.last()]);
                assert(s.filter(p) == d.filter(p));
            }
        }
    } else {
        assert forall|f: Seq<int>|
            sum(#[trigger] pick(f, s)) == sum(pick(f, s.filter(p))) + sum(pick(f, s.filter(q))) by {
            assert(pick(f, s) =~= Seq::empty());
            assert(pick(f, s.filter(p)) =~= Seq::empty());
            assert(pick(f, s.filter(q)) =~= Seq::empty());
        }
    }
}

pub open spec fn indices(s: Seq<usize>) -> Seq<int> {
    Seq::new(s.len(), |i: int| s[i] as int)
}

pub open spec fn weights_of(s: Seq<u32>) -> Seq<int> {
    Seq::new(s.len(), |i: int| s[i] as int)
}

pub open spec fn naturals(s: Seq<int>) -> bool {
    forall|i: int| 0 <= i < s.len() ==> 0 <= #[trigger] s[i]
}

/// Whether places are different and lie in a range.
pub open spec fn are_places(places: Seq<int>, n: int) -> bool {
    &&& places.no_duplicates()
    &&& forall|x: int| 0 <= x < places.len() ==> 0 <= #[trigger] places[x] < n
}

/// What scattering writes and what it leaves.
pub proof fn lemma_scatter(s: Seq<int>, places: Seq<int>, values: Seq<int>)
    requires
        are_places(places, s.len() as int),
        values.len() == places.len(),
    ensures
        scatter(s, places, values).len() == s.len(),
        forall|x: int|
            0 <= x < places.len() ==> scatter(s, places, values)[#[trigger] places[x]] == values[x],
        forall|i: int|
            0 <= i < s.len() && !places.contains(i) ==> #[trigger] scatter(s, places, values)[i]
                == s[i],
        sum(scatter(s, places, values)) == sum(s) - sum(pick(s, places)) + sum(values),
    decreases places.len(),
{
    let t = scatter(s, places, values);
    if places.len() == 0 {
        assert(pick(s, places) =~= Seq::empty());
        assert(values =~= Seq::empty());
    } else {
        let p = places.drop_last();
        let v = values.drop_last();
        let l = places.last();
        assert forall|x: int| 0 <= x < p.len() implies 0 <= #[trigger] p[x] < s.len() by {
            assert(0 <= places[x] < s.len());
        }
        assert(p.no_duplicates());
        lemma_scatter(s, p, v);
        let u = scatter(s, p, v);
        assert(0 <= places[places.len() - 1] < s.len());
        assert(!p.contains(l)) by {
            if p.contains(l) {
                let x = choose|x: int| 0 <= x < p.len() && p[x] == l;
                assert(places[x] == places[places.len() - 1]);
            }
        }
        assert(u[l] == s[l]);
        lemma_sum_update(u, l, values.last());
        assert(pick(s, places) =~= pick(s, p).push(s[l]));
        lemma_sum_push(pick(s, p), s[l]);
        assert(values =~= v.push(values.last()));
        lemma_sum_push(v, values.last());
        assert forall|x: int| 0 <= x < places.len() implies t[#[trigger] places[x]] == values[x] by {
            if x < p.len() {
                assert(p[x] == places[x]);
                assert(places[x] != l);
            }
        }
        assert forall|i: int| 0 <= i < s.len() && !places.contains(i) implies #[trigger] t[i]
            == s[i] by {
            assert(i != l) by {
                assert(places[places.len() - 1] == l);
            }
            if p.contains(i) {
                let x = choose|x: int| 0 <= x < p.len() && p[x] == i;
                assert(places[x] == i);
            }
            assert(u[i] == s[i]);
        }
    }
}

/// A filter of places is places, all of which satisfy the condition.
pub proof fn lemma_filter_places(live: Seq<int>, p: spec_fn(int) -> bool, n: int)
    requires
        are_places(live, n),
    ensures
        are_places(live.filter(p), n),
        forall|i: int| #[trigger] live.filter(p).contains(i) <==> live.contains(i) && p(i),
        forall|x: int| 0 <= x < live.filter(p).len() ==> p(#[trigger] live.filter(p)[x]),
    decreases live.len(),
{
    reveal(Seq::filter);
    if live.len() > 0 {
        let d = live.drop_last();
        let l = live.last();
        assert forall|x: int| 0 <= x < d.len() implies 0 <= #[trigger] d[x] < n by {
            assert(0 <= live[x] < n);
        }
        lemma_filter_places(d, p, n);
        let f = live.filter(p);
        let g = d.filter(p);
        assert(!d.contains(l)) by {
            if d.contains(l) {
                let x = choose|x: int| 0 <= x < d.len() && d[x] == l;
                assert(live[x] == live[live.len() - 1]);
            }
        }
        assert(live =~= d.push(l));
        assert(0 <= live[live.len() - 1] < n);
        assert forall|i: int| #[trigger] f.contains(i) <==> live.contains(i) && p(i) by {
            crate::axials::lemma_contains_push(d, l, i);
            crate::axials::lemma_contains_push(g, l, i);
            assert(g.contains(i) <==> d.contains(i) && p(i));
        }
        if p(l) {
            assert(f == g.push(l));
            assert(!g.contains(l));
            assert forall|x: int, y: int| 0 <= x < f.len() && 0 <= y < f.len() && x != y implies
                f[x] != f[y] by {
                if x < g.len() && y < g.len() {
                    assert(g[x] != g[y]);
                } else if x < g.len() {
                    assert(g.contains(g[x]));
                } else {
                    assert(g.contains(g[y]));
                }
            }
        } else {
            assert(f == g);
        }
    }
}

/// The capacities of the bursting cells are within what remains.
proof fn lemma_bursting_within(cap: Seq<int>, weight: Seq<int>, live: Seq<int>, remaining: int)
    requires
        naturals(cap),
        naturals(weight),
        weight.len() == cap.len(),
        are_places(live, cap.len() as int),
        remaining >= 0,
        sum(claims(cap, weight, live)) > 0,
    ensures
        0 <= sum(pick(cap, bursting(cap, weight, live, remaining))) <= remaining,
{
    let total = sum(claims(cap, weight, live));
    let p = |i: int| bursts(cap, weight, live, remaining, i);
    let q = |i: int| !bursts(cap, weight, live, remaining, i);
    let full = live.filter(p);
    let n = cap.len() as int;
    lemma_filter_places(live, p, n);
    lemma_filter_parts(live, p, q);
    lemma_filter_places(live, q, n);
    let scores = Seq::new(cap.len(), |i: int| cap[i] * weight[i]);
    assert(claims(cap, weight, live) =~= pick(scores, live));
    let caps_full = pick(cap, full);
    let scores_full = pick(scores, full);
    let scaled_caps = Seq::new(full.len(), |x: int| total * caps_full[x]);
    let scaled_scores = Seq::new(full.len(), |x: int| remaining * scores_full[x]);
    assert forall|x: int| 0 <= x < full.len() implies #[trigger] scaled_caps[x]
        <= scaled_scores[x] by {
        let i = full[x];
        assert(p(full[x]));
        assert(0 <= full[x] < n);
        assert(total * cap[i] <= remaining * (cap[i] * weight[i])) by (nonlinear_arith)
            requires
                remaining * weight[i] > total,
                cap[i] > 0,
                total > 0,
        ;
    }
    lemma_sum_le(scaled_caps, scaled_scores);
    lemma_sum_scale(caps_full, total, scaled_caps);
    lemma_sum_scale(scores_full, remaining, scaled_scores);
    let rest = pick(scores, live.filter(q));
    assert forall|x: int| 0 <= x < rest.len() implies 0 <= #[trigger] rest[x] by {
        let i = live.filter(q)[x];
        assert(0 <= i < n);
        assert(0 <= cap[i] && 0 <= weight[i]);
        assert(0 <= cap[i] * weight[i]) by (nonlinear_arith)
            requires
                0 <= cap[i],
                0 <= weight[i],
        ;
    }
    lemma_sum_bounds(rest, 0);
    assert forall|x: int| 0 <= x < caps_full.len() implies 0 <= #[trigger] caps_full[x] by {
        assert(0 <= full[x] < n);
        assert(0 <= cap[full[x]]);
    }
    lemma_sum_bounds(caps_full, 0);
    let c = sum(caps_full);
    let sf = sum(scores_full);
    assert(c <= remaining) by (nonlinear_arith)
        requires
            total * c <= remaining * sf,
            sf <= total,
            total > 0,
            remaining >= 0,
            c >= 0,
    ;
}

/// Where no share bursts and all can be computed, no cell gets more than its
/// capacity.
proof fn lemma_shares_fit(cap: Seq<int>, weight: Seq<int>, live: Seq<int>, remaining: int)
    requires
        naturals(cap),
        naturals(weight),
        weight.len() == cap.len(),
        are_places(live, cap.len() as int),
        remaining >= 0,
        sum(claims(cap, weight, live)) > 0,
        bursting(cap, weight, live, remaining).len() == 0,
        !overflows(cap, weight, live, remaining),
    ensures
        forall|x: int|
            0 <= x < live.len() ==> 0 <= #[trigger] apportioned(
                remaining,
                claims(cap, weight, live),
            )[x] <= cap[live[x]],
        sum(apportioned(remaining, claims(cap, weight, live))) == remaining,
        naturals(claims(cap, weight, live)),
{
    let scores = claims(cap, weight, live);
    let total = sum(scores);
    let n = cap.len() as int;
    let p = |i: int| bursts(cap, weight, live, remaining, i);
    lemma_filter_places(live, p, n);
    assert forall|x: int| 0 <= x < scores.len() implies 0 <= #[trigger] scores[x] by {
        let i = live[x];
        assert(0 <= live[x] < n);
        assert(0 <= cap[i] && 0 <= weight[i]);
        assert(0 <= cap[i] * weight[i]) by (nonlinear_arith)
            requires
                0 <= cap[i],
                0 <= weight[i],
        ;
    }
    lemma_leftover(remaining, scores);
    crate::apportion::lemma_apportioned_sum(remaining, scores);
    assert forall|x: int| 0 <= x < live.len() implies 0 <= #[trigger] apportioned(
        remaining,
        scores,
    )[x] <= cap[live[x]] by {
        let i = live[x];
        assert(0 <= live[x] < n);
        assert(0 <= cap[i] && 0 <= weight[i]);
        assert(live.contains(i));
        assert(!p(i)) by {
            if p(i) {
                assert(live.filter(p).contains(i));
            }
        }
        let f = floor_share(remaining, scores, x);
        let r = remainder_of(remaining, scores, x);
        let m = remaining * scores[x];
        vstd::arithmetic::div_mod::lemma_fundamental_div_mod(m, total);
        assert(0 <= r < total);
        assert(0 <= f);
        assert(remaining * (cap[live[x]] * weight[live[x]]) <= u128::MAX);
        assert(cap[i] == 0 || remaining * weight[i] <= total);
        assert(m <= total * cap[i]) by (nonlinear_arith)
            requires
                m == remaining * (cap[i] * weight[i]),
                cap[i] == 0 || remaining * weight[i] <= total,
                cap[i] >= 0,
                total > 0,
        ;
        assert(f <= cap[i] && (f == cap[i] ==> r == 0)) by (nonlinear_arith)
            requires
                m == total * f + r,
                0 <= r,
                m <= total * cap[i],
                total > 0,
        ;
        if crate::apportion::share(remaining, scores, x) > f {
            crate::apportion::lemma_extra_needs_remainder(remaining, scores, x);
        }
    }
}

/// What holds of a filled allocation: no cell goes beyond its capacity, cells
/// that are not live keep what they have, and no more is handed out than there
/// is. Where every live cell has a weight and the capacities suffice, all of it
/// is handed out.
pub proof fn lemma_fill(
    cap: Seq<int>,
    weight: Seq<int>,
    live: Seq<int>,
    remaining: int,
    targets: Seq<int>,
)
    requires
        naturals(cap),
        naturals(weight),
        weight.len() == cap.len(),
        targets.len() == cap.len(),
        are_places(live, cap.len() as int),
        remaining >= 0,
        forall|i: int| 0 <= i < cap.len() ==> 0 <= #[trigger] targets[i] <= cap[i],
        forall|x: int| 0 <= x < live.len() ==> targets[#[trigger] live[x]] == 0,
    ensures
        fill(cap, weight, live, remaining, targets) matches Some(t) ==> {
            &&& t.len() == cap.len()
            &&& forall|i: int| 0 <= i < cap.len() ==> 0 <= #[trigger] t[i] <= cap[i]
            &&& forall|i: int|
                0 <= i < cap.len() && !live.contains(i) ==> #[trigger] t[i] == targets[i]
            &&& sum(targets) <= sum(t) <= sum(targets) + remaining
            &&& remaining <= sum(pick(cap, live)) && (forall|x: int|
                0 <= x < live.len() ==> weight[#[trigger] live[x]] > 0) ==> sum(t) == sum(targets)
                + remaining
        },
    decreases live.len(),
{
    let n = cap.len() as int;
    let scores = claims(cap, weight, live);
    assert forall|x: int| 0 <= x < scores.len() implies 0 <= #[trigger] scores[x] by {
        let i = live[x];
        assert(0 <= live[x] < n);
        assert(0 <= cap[i] && 0 <= weight[i]);
        assert(0 <= cap[i] * weight[i]) by (nonlinear_arith)
            requires
                0 <= cap[i],
                0 <= weight[i],
        ;
    }
    lemma_sum_bounds(scores, 0);
    if remaining == 0 {
    } else if sum(scores) == 0 {
        if remaining <= sum(pick(cap, live)) && forall|x: int|
            0 <= x < live.len() ==> weight[#[trigger] live[x]] > 0 {
            let caps = pick(cap, live);
            assert forall|x: int| 0 <= x < caps.len() implies #[trigger] caps[x] == 0 by {
                let i = live[x];
                assert(0 <= live[x] < n);
                assert(0 <= cap[i]);
                assert(weight[live[x]] > 0);
                assert(scores[x] <= sum(scores));
                assert(cap[i] == 0) by (nonlinear_arith)
                    requires
                        cap[i] * weight[i] <= 0,
                        cap[i] >= 0,
                        weight[i] > 0,
                ;
            }
            lemma_sum_zeros(caps);
        }
    } else if bursting(cap, weight, live, remaining).len() > 0 {
        let p = |i: int| bursts(cap, weight, live, remaining, i);
        let q = |i: int| !bursts(cap, weight, live, remaining, i);
        let full = live.filter(p);
        let rest = live.filter(q);
        assert(full == bursting(cap, weight, live, remaining));
        assert(rest == fitting(cap, weight, live, remaining));
        lemma_filter_parts(live, p, q);
        lemma_filter_places(live, p, n);
        lemma_filter_places(live, q, n);
        lemma_bursting_within(cap, weight, live, remaining);
        let values = pick(cap, full);
        lemma_scatter(targets, full, values);
        let next = scatter(targets, full, values);
        let left = remaining - sum(values);
        assert forall|i: int| 0 <= i < n implies 0 <= #[trigger] next[i] <= cap[i] by {
            assert(0 <= targets[i] <= cap[i]);
            if full.contains(i) {
                let x = choose|x: int| 0 <= x < full.len() && full[x] == i;
                assert(next[full[x]] == values[x]);
            }
        }
        assert forall|x: int| 0 <= x < rest.len() implies next[#[trigger] rest[x]] == 0 by {
            let i = rest[x];
            assert(rest.contains(i));
            assert(live.contains(i));
            assert(!full.contains(i));
            let y = choose|y: int| 0 <= y < live.len() && live[y] == i;
            assert(targets[live[y]] == 0);
        }
        let zeros = pick(targets, full);
        assert forall|x: int| 0 <= x < zeros.len() implies #[trigger] zeros[x] == 0 by {
            let i = full[x];
            assert(full.contains(i));
            assert(live.contains(i));
            let y = choose|y: int| 0 <= y < live.len() && live[y] == i;
            assert(targets[live[y]] == 0);
        }
        lemma_sum_zeros(zeros);
        lemma_fill(cap, weight, rest, left, next);
        assert(sum(pick(cap, live)) == sum(pick(cap, full)) + sum(pick(cap, rest)));
        assert(fill(cap, weight, live, remaining, targets) == fill(cap, weight, rest, left, next));
        assert((forall|x: int| 0 <= x < live.len() ==> weight[#[trigger] live[x]] > 0) ==> (forall|
            x: int,
        |
            0 <= x < rest.len() ==> weight[#[trigger] rest[x]] > 0)) by {
            if forall|x: int| 0 <= x < live.len() ==> weight[#[trigger] live[x]] > 0 {
                assert forall|x: int| 0 <= x < rest.len() implies weight[#[trigger] rest[x]]
                    > 0 by {
                    assert(rest.contains(rest[x]));
                    let y = choose|y: int| 0 <= y < live.len() && live[y] == rest[x];
                    assert(weight[live[y]] > 0);
                }
            }
        }
        match fill(cap, weight, rest, left, next) {
            Some(t) => {
                assert forall|i: int| 0 <= i < n && !live.contains(i) implies #[trigger] t[i]
                    == targets[i] by {
                    assert(!rest.contains(i));
                    assert(!full.contains(i));
                    assert(next[i] == targets[i]);
                }
            },
            None => {},
        }
    } else if overflows(cap, weight, live, remaining) {
    } else {
        lemma_shares_fit(cap, weight, live, remaining);
        let values = apportioned(remaining, scores);
        lemma_scatter(targets, live, values);
        let t = scatter(targets, live, values);
        let zeros = pick(targets, live);
        assert forall|x: int| 0 <= x < zeros.len() implies #[trigger] zeros[x] == 0 by {
            assert(targets[live[x]] == 0);
        }
        lemma_sum_zeros(zeros);
        assert forall|i: int| 0 <= i < n implies 0 <= #[trigger] t[i] <= cap[i] by {
            assert(0 <= targets[i] <= cap[i]);
            if live.contains(i) {
                let x = choose|x: int| 0 <= x < live.len() && live[x] == i;
                assert(t[live[x]] == values[x]);
                assert(0 <= values[x] <= cap[live[x]]);
            }
        }
    }
}

/// The claims of the live cells and their sum.
fn live_claims(caps: &[u64], weights: &[u32], live: &Vec<usize>) -> (result: (Vec<u128>, u128))
    requires
        caps@.len() == weights@.len(),
        are_places(indices(live@), caps@.len() as int),
        sum(pick(ints(caps@), indices(live@))) <= u64::MAX,
    ensures
        wide(result.0@) == claims(ints(caps@), weights_of(weights@), indices(live@)),
        result.0@.len() == live@.len(),
        result.1 == sum(wide(result.0@)),
        forall|x: int| 0 <= x < result.0@.len() ==> (#[trigger] result.0@[x]) <= u64::MAX * u32::MAX,
{
    let ghost c = ints(caps@);
    let ghost w = weights_of(weights@);
    let ghost l = indices(live@);
    let ghost all = claims(c, w, l);
    let ghost held = pick(c, l);
    let mut scores: Vec<u128> = Vec::new();
    let mut total: u128 = 0;
    let mut x: usize = 0;
    proof {
        assert(all.take(0) =~= Seq::empty());
        assert(held.take(0) =~= Seq::empty());
        assert forall|i: int| 0 <= i < held.len() implies 0 <= #[trigger] held[i] by {
            assert(0 <= l[i] < c.len());
        }
    }
    while x < live.len()
        invariant
            x <= live.len(),
            caps@.len() == weights@.len(),
            c == ints(caps@),
            w == weights_of(weights@),
            l == indices(live@),
            all == claims(c, w, l),
            held == pick(c, l),
            are_places(l, caps@.len() as int),
            forall|i: int| 0 <= i < held.len() ==> 0 <= #[trigger] held[i],
            sum(held) <= u64::MAX,
            scores@.len() == x,
            forall|j: int| 0 <= j < x ==> #[trigger] scores@[j] == all[j],
            forall|j: int| 0 <= j < x ==> (#[trigger] scores@[j]) <= u64::MAX * u32::MAX,
            total == sum(all.take(x as int)),
            total <= sum(held.take(x as int)) * 0xffff_ffff,
        decreases live.len() - x,
    {
        let i: usize = live[x];
        assert(0 <= l[x as int] < c.len());
        assert(caps@[i as int] * weights@[i as int] <= u64::MAX * u32::MAX) by (nonlinear_arith)
            requires
                0 <= caps@[i as int] <= u64::MAX,
                0 <= weights@[i as int] <= u32::MAX,
        ;
        assert(0 <= caps@[i as int] * weights@[i as int] <= caps@[i as int] * 0xffff_ffff)
            by (nonlinear_arith)
            requires
                0 <= caps@[i as int],
                0 <= weights@[i as int] <= 0xffff_ffff,
        ;
        let score: u128 = caps[i] as u128 * weights[i] as u128;
        proof {
            assert(all.take(x + 1).drop_last() =~= all.take(x as int));
            assert(held.take(x + 1).drop_last() =~= held.take(x as int));
            lemma_sum_bounds(held, x as int);
            lemma_sum_bounds(held, x + 1);
            assert(held[x as int] == caps@[i as int]);
        }
        scores.push(score);
        total = total + score;
        x += 1;
    }
    assert(all.take(x as int) =~= all);
    assert(wide(scores@) =~= all);
    (scores, total)
}

/// The live cells in two parts: those whose share bursts, and the others.
fn split_bursting(
    caps: &[u64],
    weights: &[u32],
    live: &Vec<usize>,
    scores: &Vec<u128>,
    total: u128,
    remaining: u64,
) -> (parts: (Vec<usize>, Vec<usize>))
    requires
        caps@.len() == weights@.len(),
        are_places(indices(live@), caps@.len() as int),
        wide(scores@) == claims(ints(caps@), weights_of(weights@), indices(live@)),
        scores@.len() == live@.len(),
        total == sum(wide(scores@)),
    ensures
        indices(parts.0@) == bursting(
            ints(caps@),
            weights_of(weights@),
            indices(live@),
            remaining as int,
        ),
        indices(parts.1@) == fitting(
            ints(caps@),
            weights_of(weights@),
            indices(live@),
            remaining as int,
        ),
{
    let ghost c = ints(caps@);
    let ghost w = weights_of(weights@);
    let ghost l = indices(live@);
    let ghost p = |i: int| bursts(c, w, l, remaining as int, i);
    let ghost q = |i: int| !bursts(c, w, l, remaining as int, i);
    let mut full: Vec<usize> = Vec::new();
    let mut rest: Vec<usize> = Vec::new();
    let mut x: usize = 0;
    proof {
        reveal(Seq::filter);
        assert(l.take(0) =~= Seq::empty());
        assert(indices(full@) =~= Seq::<int>::empty().filter(p));
        assert(indices(rest@) =~= Seq::<int>::empty().filter(q));
    }
    while x < live.len()
        invariant
            x <= live.len(),
            caps@.len() == weights@.len(),
            c == ints(caps@),
            w == weights_of(weights@),
            l == indices(live@),
            p == (|i: int| bursts(c, w, l, remaining as int, i)),
            q == (|i: int| !bursts(c, w, l, remaining as int, i)),
            are_places(l, caps@.len() as int),
            wide(scores@) == claims(c, w, l),
            scores@.len() == live@.len(),
            total == sum(claims(c, w, l)),
            indices(full@) == l.take(x as int).filter(p),
            indices(rest@) == l.take(x as int).filter(q),
        decreases live.len() - x,
    {
        let i: usize = live[x];
        assert(0 <= l[x as int] < c.len());
        assert(wide(scores@)[x as int] == c[i as int] * w[i as int]);
        let computable = (remaining as u128).checked_mul(scores[x]).is_some();
        assert(0 <= remaining * weights@[i as int] <= 0xffff_ffff_ffff_ffff * 0xffff_ffff)
            by (nonlinear_arith)
            requires
                0 <= remaining <= 0xffff_ffff_ffff_ffff,
                0 <= weights@[i as int] <= 0xffff_ffff,
        ;
        let over = computable && caps[i] > 0 && remaining as u128 * weights[i] as u128 > total;
        assert(over == p(i as int));
        let ghost full_was = full@;
        let ghost rest_was = rest@;
        if over {
            full.push(i);
        } else {
            rest.push(i);
        }
        proof {
            reveal(Seq::filter);
            assert(l.take(x + 1).drop_last() =~= l.take(x as int));
            assert(l.take(x + 1).last() == i);
            if over {
                assert(indices(full@) =~= indices(full_was).push(i as int));
            } else {
                assert(indices(rest@) =~= indices(rest_was).push(i as int));
            }
        }
        x += 1;
    }
    assert(l.take(x as int) =~= l);
    (full, rest)
}

/// Writes values to the listed places.
pub fn write_places(targets: &mut Vec<u64>, places: &Vec<usize>, values: &Vec<u64>)
    requires
        are_places(indices(places@), old(targets)@.len() as int),
        places@.len() == values@.len(),
    ensures
        ints(final(targets)@) == scatter(ints(old(targets)@), indices(places@), ints(values@)),
        final(targets)@.len() == old(targets)@.len(),
{
    let ghost start = ints(targets@);
    let ghost l = indices(places@);
    let ghost v = ints(values@);
    let mut x: usize = 0;
    assert(l.take(0) =~= Seq::empty());
    assert(v.take(0) =~= Seq::empty());
    while x < places.len()
        invariant
            x <= places.len(),
            places@.len() == values@.len(),
            l == indices(places@),
            v == ints(values@),
            are_places(l, start.len() as int),
            targets@.len() == start.len(),
            ints(targets@) == scatter(start, l.take(x as int), v.take(x as int)),
        decreases places.len() - x,
    {
        let i: usize = places[x];
        assert(0 <= l[x as int] < start.len());
        let ghost was = ints(targets@);
        targets.set(i, values[x]);
        proof {
            assert(ints(targets@) =~= was.update(i as int, values@[x as int] as int));
            assert(l.take(x + 1).drop_last() =~= l.take(x as int));
            assert(v.take(x + 1).drop_last() =~= v.take(x as int));
        }
        x += 1;
    }
    assert(l.take(x as int) =~= l);
    assert(v.take(x as int) =~= v);
}

/// Whether the share of some cell cannot be computed.
fn any_overflow(scores: &Vec<u128>, remaining: u64) -> (found: bool)
    ensures
        found == exists|x: int|
            0 <= x < scores@.len() && remaining * (#[trigger] scores@[x]) > u128::MAX,
{
    let mut x: usize = 0;
    while x < scores.len()
        invariant
            x <= scores.len(),
            forall|y: int| 0 <= y < x ==> remaining * (#[trigger] scores@[y]) <= u128::MAX,
        decreases scores.len() - x,
    {
        if (remaining as u128).checked_mul(scores[x]).is_none() {
            assert(remaining * scores@[x as int] > u128::MAX);
            return true;
        }
        x += 1;
    }
    false
}

/// Apportions an amount to the live cells without filling one beyond its
/// capacity. Nothing comes out where a share cannot be computed.
pub fn water_fill(
    caps: &[u64],
    weights: &[u32],
    live: Vec<usize>,
    goal: u64,
    targets: Vec<u64>,
) -> (result: Option<Vec<u64>>)
    requires
        caps@.len() == weights@.len() == targets@.len(),
        are_places(indices(live@), caps@.len() as int),
        sum(pick(ints(caps@), indices(live@))) <= u64::MAX,
    ensures
        match result {
            Some(t) => fill(
                ints(caps@),
                weights_of(weights@),
                indices(live@),
                goal as int,
                ints(targets@),
            ) == Some(ints(t@)) && t@.len() == caps@.len(),
            None => fill(
                ints(caps@),
                weights_of(weights@),
                indices(live@),
                goal as int,
                ints(targets@),
            ) is None,
        },
{
    let ghost c = ints(caps@);
    let ghost w = weights_of(weights@);
    let ghost whole = fill(c, w, indices(live@), goal as int, ints(targets@));
    let mut alive = live;
    let mut filled = targets;
    let mut remaining: u64 = goal;
    loop
        invariant
            c == ints(caps@),
            w == weights_of(weights@),
            caps@.len() == weights@.len() == filled@.len(),
            are_places(indices(alive@), caps@.len() as int),
            sum(pick(c, indices(alive@))) <= u64::MAX,
            whole == fill(c, w, indices(alive@), remaining as int, ints(filled@)),
            whole == fill(c, w, indices(live@), goal as int, ints(targets@)),
        decreases alive@.len(),
    {
        let ghost l = indices(alive@);
        if remaining == 0 {
            return Some(filled);
        }
        let (scores, total) = live_claims(caps, weights, &alive);
        if total == 0 {
            return Some(filled);
        }
        let (full, rest) = split_bursting(caps, weights, &alive, &scores, total, remaining);
        let ghost p = |i: int| bursts(c, w, l, remaining as int, i);
        let ghost q = |i: int| !bursts(c, w, l, remaining as int, i);
        proof {
            assert(indices(full@) == l.filter(p));
            assert(indices(rest@) == l.filter(q));
            lemma_filter_parts(l, p, q);
            lemma_filter_places(l, p, c.len() as int);
            lemma_filter_places(l, q, c.len() as int);
            lemma_bursting_within(c, w, l, remaining as int);
            assert(sum(pick(c, l)) == sum(pick(c, l.filter(p))) + sum(pick(c, l.filter(q))));
            assert(indices(full@).len() == full@.len());
            assert(indices(rest@).len() == rest@.len());
            assert(indices(alive@).len() == alive@.len());
        }
        if full.len() > 0 {
            let mut values: Vec<u64> = Vec::new();
            let ghost f = indices(full@);
            let ghost held = pick(c, f);
            let mut used: u64 = 0;
            let mut x: usize = 0;
            assert(held.take(0) =~= Seq::empty());
            while x < full.len()
                invariant
                    x <= full.len(),
                    c == ints(caps@),
                    f == indices(full@),
                    held == pick(c, f),
                    are_places(f, caps@.len() as int),
                    values@.len() == x,
                    forall|y: int| 0 <= y < x ==> #[trigger] values@[y] == held[y],
                    used == sum(held.take(x as int)),
                    sum(held) <= remaining,
                decreases full.len() - x,
            {
                let i: usize = full[x];
                assert(0 <= f[x as int] < c.len());
                proof {
                    assert(held.take(x + 1).drop_last() =~= held.take(x as int));
                    assert forall|y: int| 0 <= y < held.len() implies 0 <= #[trigger] held[y] by {
                        assert(0 <= f[y] < c.len());
                    }
                    lemma_sum_bounds(held, x + 1);
                }
                values.push(caps[i]);
                used = used + caps[i];
                x += 1;
            }
            proof {
                assert(held.take(x as int) =~= held);
                assert(ints(values@) =~= held);
            }
            write_places(&mut filled, &full, &values);
            remaining = remaining - used;
            alive = rest;
            continue;
        }
        proof {
            assert forall|x: int| 0 <= x < l.len() implies wide(scores@)[x] == c[#[trigger] l[x]]
                * w[l[x]] by {}
        }
        if any_overflow(&scores, remaining) {
            proof {
                let x = choose|x: int|
                    0 <= x < scores@.len() && remaining * (#[trigger] scores@[x]) > u128::MAX;
                assert(wide(scores@)[x] == c[l[x]] * w[l[x]]);
                assert(overflows(c, w, l, remaining as int));
            }
            return None;
        }
        proof {
            assert(!overflows(c, w, l, remaining as int)) by {
                if overflows(c, w, l, remaining as int) {
                    let x = choose|x: int|
                        0 <= x < l.len() && remaining * (c[#[trigger] l[x]] * w[l[x]]) > u128::MAX;
                    assert(wide(scores@)[x] == c[l[x]] * w[l[x]]);
                    assert(remaining * scores@[x] > u128::MAX);
                }
            }
        }
        let (shares, _last) = largest_remainder(remaining, scores.as_slice(), total);
        assert(shares@.len() == ints(shares@).len());
        write_places(&mut filled, &alive, &shares);
        return Some(filled);
    }
}

} // verus!
