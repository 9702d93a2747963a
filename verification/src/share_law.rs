//! What shares mean: that they follow the scores, and that nobody is capped while
//! another gets relatively more.
use vstd::prelude::*;
use crate::apportion::{
    ahead, apportioned, floor_share, lemma_apportioned_sum, lemma_extra_needs_remainder,
    lemma_leftover, remainder_of, share,
};
use crate::order::{lemma_sum_bounds, lemma_sum_le, lemma_sum_scale, sum};
use crate::axials::{lemma_ordered, ordered};
use crate::coord::Axial;
use crate::map::{Cell, PlayerId};
use crate::redistribution::{
    accepts, all_places, bounds_at, capacities_at, constrain, constrained, constraint_fault,
    dense_targets, fallback_places, fallback_targets, falls_short, forces_at,
    holds_up, is_coordinate_order, keepable, lemma_all_places, lemma_constrain, lemma_constrained,
    lemma_coordinate_order, lemma_kinds_of_places, preferred_goal, preferred_places,
    preferred_targets, prescribed, shaped_targets, uniform, weights_at, zeros,
};
use crate::waterfill::{
    are_places, bursting, bursts, claims, fill, fitting, lemma_fill, lemma_filter_parts,
    lemma_filter_places, lemma_scatter, naturals, overflows, pick, scatter,
};

verus! {

/// The exact share lies less than one unit from what an entry gets.
pub proof fn law_shares_round_to_a_neighbour(amount: int, scores: Seq<int>, i: int)
    requires
        amount >= 0,
        sum(scores) > 0,
        forall|i: int| 0 <= i < scores.len() ==> 0 <= #[trigger] scores[i],
        0 <= i < scores.len(),
    ensures
        apportioned(amount, scores)[i] >= 0,
        (apportioned(amount, scores)[i] - 1) * sum(scores) < amount * scores[i],
        amount * scores[i] < (apportioned(amount, scores)[i] + 1) * sum(scores),
{
    let w = sum(scores);
    let p = amount * scores[i];
    let f = floor_share(amount, scores, i);
    let r = remainder_of(amount, scores, i);
    let t = share(amount, scores, i);
    lemma_leftover(amount, scores);
    vstd::arithmetic::div_mod::lemma_fundamental_div_mod(p, w);
    assert(0 <= r < w);
    assert(f >= 0);
    if t > f {
        lemma_extra_needs_remainder(amount, scores, i);
        assert(t == f + 1);
    }
    assert((t - 1) * w < p && p < (t + 1) * w) by (nonlinear_arith)
        requires
            p == w * f + r,
            0 <= r < w,
            t == f || (t == f + 1 && r > 0),
            w > 0,
    ;
}

/// Two numbers that each lie less than a unit from their exact share compare as
/// their scores do.
proof fn lemma_cross(t: int, u: int, a: int, b: int, amount: int, w: int)
    requires
        a >= 0,
        b >= 0,
        a + b > 0,
        w > 0,
        (t - 1) * w < amount * a,
        amount * b < (u + 1) * w,
    ensures
        t * b < u * a + a + b,
{
    assert(t * b < u * a + a + b) by (nonlinear_arith)
        requires
            a >= 0,
            b >= 0,
            a + b > 0,
            w > 0,
            (t - 1) * w < amount * a,
            amount * b < (u + 1) * w,
    {
        assert((t - 1) * w * b <= amount * a * b) by (nonlinear_arith)
            requires
                (t - 1) * w < amount * a,
                b >= 0,
        ;
        assert(amount * b * a <= (u + 1) * w * a) by (nonlinear_arith)
            requires
                amount * b < (u + 1) * w,
                a >= 0,
        ;
        assert(amount * a * b == amount * b * a) by (nonlinear_arith);
        if b > 0 {
            assert((t - 1) * w * b < amount * a * b) by (nonlinear_arith)
                requires
                    (t - 1) * w < amount * a,
                    b > 0,
            ;
        } else {
            assert(a > 0);
            assert(amount * b * a < (u + 1) * w * a) by (nonlinear_arith)
                requires
                    amount * b < (u + 1) * w,
                    a > 0,
            ;
        }
        assert((t - 1) * w * b < (u + 1) * w * a);
        assert(w * ((t - 1) * b) < w * ((u + 1) * a)) by (nonlinear_arith)
            requires
                (t - 1) * w * b < (u + 1) * w * a,
        ;
        assert((t - 1) * b < (u + 1) * a) by (nonlinear_arith)
            requires
                w * ((t - 1) * b) < w * ((u + 1) * a),
                w > 0,
        ;
    }
}

/// Shares are in proportion to the scores, up to a unit each: of any two entries
/// neither gets more, for its score, than the other and a unit.
pub proof fn law_shares_follow_the_scores(amount: int, scores: Seq<int>, i: int, j: int)
    requires
        amount >= 0,
        sum(scores) > 0,
        forall|i: int| 0 <= i < scores.len() ==> 0 <= #[trigger] scores[i],
        0 <= i < scores.len(),
        0 <= j < scores.len(),
        scores[i] + scores[j] > 0,
    ensures
        apportioned(amount, scores)[i] * scores[j] < apportioned(amount, scores)[j] * scores[i]
            + scores[i] + scores[j],
        apportioned(amount, scores)[j] * scores[i] < apportioned(amount, scores)[i] * scores[j]
            + scores[i] + scores[j],
        sum(apportioned(amount, scores)) == amount,
{
    let t = apportioned(amount, scores);
    law_shares_round_to_a_neighbour(amount, scores, i);
    law_shares_round_to_a_neighbour(amount, scores, j);
    lemma_cross(t[i], t[j], scores[i], scores[j], amount, sum(scores));
    lemma_cross(t[j], t[i], scores[j], scores[i], amount, sum(scores));
    lemma_apportioned_sum(amount, scores);
}

proof fn lemma_ahead_finite(amount: int, scores: Seq<int>, i: int)
    ensures
        ahead(amount, scores, i).finite(),
{
    let range = vstd::set_lib::set_int_range(0, scores.len() as int);
    vstd::set_lib::lemma_int_range(0, scores.len() as int);
    assert(ahead(amount, scores, i).subset_of(range));
    vstd::set_lib::lemma_len_subset(ahead(amount, scores, i), range);
}

/// A greater score never gets less, and of two equal scores the one that comes
/// first gets as much as the other, or one unit more.
pub proof fn law_greater_scores_get_no_less(amount: int, scores: Seq<int>, i: int, j: int)
    requires
        amount >= 0,
        sum(scores) > 0,
        forall|i: int| 0 <= i < scores.len() ==> 0 <= #[trigger] scores[i],
        0 <= i < scores.len(),
        0 <= j < scores.len(),
        scores[i] > scores[j] || (scores[i] == scores[j] && i < j),
    ensures
        apportioned(amount, scores)[i] >= apportioned(amount, scores)[j],
        scores[i] == scores[j] ==> apportioned(amount, scores)[i] <= apportioned(amount, scores)[j]
            + 1,
{
    let w = sum(scores);
    let p = amount * scores[i];
    let q = amount * scores[j];
    let f = floor_share(amount, scores, i);
    let g = floor_share(amount, scores, j);
    let r = remainder_of(amount, scores, i);
    let s = remainder_of(amount, scores, j);
    lemma_leftover(amount, scores);
    vstd::arithmetic::div_mod::lemma_fundamental_div_mod(p, w);
    vstd::arithmetic::div_mod::lemma_fundamental_div_mod(q, w);
    assert(p >= q) by (nonlinear_arith)
        requires
            p == amount * scores[i],
            q == amount * scores[j],
            amount >= 0,
            scores[i] >= scores[j],
    ;
    assert(0 <= r < w && 0 <= s < w);
    assert(f > g || (f == g && r >= s)) by (nonlinear_arith)
        requires
            p == w * f + r,
            q == w * g + s,
            p >= q,
            0 <= r < w,
            0 <= s < w,
    ;
    if f == g {
        if amount == 0 {
            assert(p == 0 && q == 0);
            assert(f == 0 && r == 0 && s == 0) by (nonlinear_arith)
                requires
                    0 == w * f + r,
                    0 == w * f + s,
                    0 <= r < w,
                    0 <= s < w,
            ;
            assert(apportioned(amount, scores)[i] >= 0);
            if share(amount, scores, j) > g {
                lemma_extra_needs_remainder(amount, scores, j);
            }
        } else {
            if scores[i] > scores[j] {
                assert(p > q) by (nonlinear_arith)
                    requires
                        p == amount * scores[i],
                        q == amount * scores[j],
                        amount > 0,
                        scores[i] > scores[j],
                ;
            }
            let a = ahead(amount, scores, i);
            let b = ahead(amount, scores, j);
            lemma_ahead_finite(amount, scores, i);
            lemma_ahead_finite(amount, scores, j);
            assert(a.subset_of(b));
            vstd::set_lib::lemma_len_subset(a, b);
        }
    }
    if scores[i] == scores[j] {
        assert(f == g);
    }
}

/// Filling the bursting cells first never lowers the level of the others.
proof fn lemma_level_rises(cap: Seq<int>, weight: Seq<int>, live: Seq<int>, remaining: int)
    requires
        naturals(cap),
        naturals(weight),
        weight.len() == cap.len(),
        are_places(live, cap.len() as int),
        remaining > 0,
        sum(claims(cap, weight, live)) > 0,
    ensures
        ({
            let full = bursting(cap, weight, live, remaining);
            let rest = fitting(cap, weight, live, remaining);
            let left = remaining - sum(pick(cap, full));
            &&& left >= 0
            &&& left * sum(claims(cap, weight, live)) >= remaining * sum(claims(cap, weight, rest))
            &&& 0 <= sum(claims(cap, weight, rest)) <= sum(claims(cap, weight, live))
        }),
{
    let n = cap.len() as int;
    let p = |i: int| bursts(cap, weight, live, remaining, i);
    let q = |i: int| !bursts(cap, weight, live, remaining, i);
    let full = live.filter(p);
    let rest = live.filter(q);
    let w = sum(claims(cap, weight, live));
    lemma_filter_parts(live, p, q);
    lemma_filter_places(live, p, n);
    lemma_filter_places(live, q, n);
    let scores = Seq::new(cap.len(), |i: int| cap[i] * weight[i]);
    assert(claims(cap, weight, live) =~= pick(scores, live)) by {
        assert forall|x: int| 0 <= x < live.len() implies claims(cap, weight, live)[x] == pick(
            scores,
            live,
        )[x] by {
            assert(0 <= live[x] < n);
        }
    }
    assert(claims(cap, weight, full) =~= pick(scores, full)) by {
        assert forall|x: int| 0 <= x < full.len() implies claims(cap, weight, full)[x] == pick(
            scores,
            full,
        )[x] by {
            assert(0 <= full[x] < n);
        }
    }
    assert(claims(cap, weight, rest) =~= pick(scores, rest)) by {
        assert forall|x: int| 0 <= x < rest.len() implies claims(cap, weight, rest)[x] == pick(
            scores,
            rest,
        )[x] by {
            assert(0 <= rest[x] < n);
        }
    }
    let caps = pick(cap, full);
    let taken = claims(cap, weight, full);
    let lifted = Seq::new(full.len(), |x: int| w * caps[x]);
    let scaled = Seq::new(full.len(), |x: int| remaining * taken[x]);
    assert forall|x: int| 0 <= x < full.len() implies #[trigger] lifted[x] <= scaled[x] by {
        let i = full[x];
        assert(full.contains(i));
        assert(p(i));
        assert(w * cap[i] <= remaining * (cap[i] * weight[i])) by (nonlinear_arith)
            requires
                cap[i] > 0,
                remaining * weight[i] > w,
        ;
    }
    lemma_sum_le(lifted, scaled);
    lemma_sum_scale(caps, w, lifted);
    lemma_sum_scale(taken, remaining, scaled);
    let left = remaining - sum(caps);
    let low = sum(claims(cap, weight, rest));
    assert forall|x: int| 0 <= x < claims(cap, weight, rest).len() implies 0
        <= #[trigger] claims(cap, weight, rest)[x] by {
        let i = rest[x];
        assert(0 <= i < n);
        assert(0 <= cap[i] && 0 <= weight[i]);
        assert(0 <= cap[i] * weight[i]) by (nonlinear_arith)
            requires
                0 <= cap[i],
                0 <= weight[i],
        ;
    }
    assert forall|x: int| 0 <= x < taken.len() implies 0 <= #[trigger] taken[x] by {
        let i = full[x];
        assert(0 <= i < n);
        assert(0 <= cap[i] && 0 <= weight[i]);
        assert(0 <= cap[i] * weight[i]) by (nonlinear_arith)
            requires
                0 <= cap[i],
                0 <= weight[i],
        ;
    }
    lemma_sum_bounds(claims(cap, weight, rest), 0);
    lemma_sum_bounds(taken, 0);
    assert(w == sum(taken) + low);
    assert(left * w >= remaining * low) by (nonlinear_arith)
        requires
            left == remaining - sum(caps),
            w * sum(caps) <= remaining * sum(taken),
            w == sum(taken) + low,
    ;
    assert(left >= 0) by (nonlinear_arith)
        requires
            left * w >= remaining * low,
            remaining > 0,
            low >= 0,
            w > 0,
    ;
}

/// What the fill gives: a cell below its capacity gets its share at least, up to a
/// unit, and no cell gets more for its claim than one below its capacity, up to a unit
/// each.
pub proof fn lemma_fill_is_level(
    cap: Seq<int>,
    weight: Seq<int>,
    live: Seq<int>,
    remaining: int,
    targets: Seq<int>,
    i: int,
    j: int,
)
    requires
        naturals(cap),
        naturals(weight),
        weight.len() == cap.len(),
        targets.len() == cap.len(),
        are_places(live, cap.len() as int),
        remaining >= 0,
        forall|i: int| 0 <= i < cap.len() ==> 0 <= #[trigger] targets[i] <= cap[i],
        forall|x: int| 0 <= x < live.len() ==> targets[#[trigger] live[x]] == 0,
        live.contains(i),
        live.contains(j),
        fill(cap, weight, live, remaining, targets) is Some,
    ensures
        ({
            let t = fill(cap, weight, live, remaining, targets)->0;
            let si = cap[i] * weight[i];
            let sj = cap[j] * weight[j];
            &&& t[i] < cap[i] && sum(claims(cap, weight, live)) > 0 ==> remaining * si < (t[i] + 1)
                * sum(claims(cap, weight, live))
            &&& t[i] < cap[i] && si + sj > 0 ==> t[j] * si < t[i] * sj + si + sj
        }),
    decreases live.len(),
{
    let n = cap.len() as int;
    let t = fill(cap, weight, live, remaining, targets)->0;
    let scores = claims(cap, weight, live);
    let w = sum(scores);
    let si = cap[i] * weight[i];
    let sj = cap[j] * weight[j];
    let a = choose|a: int| 0 <= a < live.len() && live[a] == i;
    let b = choose|b: int| 0 <= b < live.len() && live[b] == j;
    assert(0 <= live[a] < n && 0 <= live[b] < n);
    assert(targets[live[a]] == 0 && targets[live[b]] == 0);
    assert(0 <= cap[i] && 0 <= weight[i] && 0 <= cap[j] && 0 <= weight[j]);
    assert(0 <= si && 0 <= sj) by (nonlinear_arith)
        requires
            0 <= cap[i],
            0 <= weight[i],
            0 <= cap[j],
            0 <= weight[j],
            si == cap[i] * weight[i],
            sj == cap[j] * weight[j],
    ;
    assert forall|x: int| 0 <= x < scores.len() implies 0 <= #[trigger] scores[x] by {
        let y = live[x];
        assert(0 <= y < n);
        assert(0 <= cap[y] && 0 <= weight[y]);
        assert(0 <= cap[y] * weight[y]) by (nonlinear_arith)
            requires
                0 <= cap[y],
                0 <= weight[y],
        ;
    }
    lemma_sum_bounds(scores, 0);
    assert(scores[a] == si && scores[b] == sj);
    if remaining <= 0 || w == 0 {
        assert(t == targets);
        assert(remaining == 0 || w == 0);
        if w > 0 {
            assert(remaining * si == 0) by (nonlinear_arith)
                requires
                    remaining == 0,
            ;
        }
        assert(t[j] * si == 0 && t[i] * sj == 0 && (t[i] + 1) * w == w) by (nonlinear_arith)
            requires
                t[i] == 0,
                t[j] == 0,
        ;
    } else if bursting(cap, weight, live, remaining).len() > 0 {
        let p = |i: int| bursts(cap, weight, live, remaining, i);
        let q = |i: int| !bursts(cap, weight, live, remaining, i);
        let full = live.filter(p);
        let rest = live.filter(q);
        let left = remaining - sum(pick(cap, full));
        let next = scatter(targets, full, pick(cap, full));
        lemma_filter_parts(live, p, q);
        lemma_filter_places(live, p, n);
        lemma_filter_places(live, q, n);
        lemma_level_rises(cap, weight, live, remaining);
        lemma_scatter(targets, full, pick(cap, full));
        assert forall|y: int| 0 <= y < n implies 0 <= #[trigger] next[y] <= cap[y] by {
            assert(0 <= targets[y] <= cap[y]);
            if full.contains(y) {
                let x = choose|x: int| 0 <= x < full.len() && full[x] == y;
                assert(next[full[x]] == pick(cap, full)[x]);
            }
        }
        assert forall|x: int| 0 <= x < rest.len() implies next[#[trigger] rest[x]] == 0 by {
            let y = rest[x];
            assert(rest.contains(y));
            assert(live.contains(y));
            assert(!full.contains(y));
            let z = choose|z: int| 0 <= z < live.len() && live[z] == y;
            assert(targets[live[z]] == 0);
        }
        lemma_fill(cap, weight, rest, left, next);
        assert(fill(cap, weight, rest, left, next) == Some(t));
        if full.contains(i) {
            let x = choose|x: int| 0 <= x < full.len() && full[x] == i;
            assert(next[full[x]] == pick(cap, full)[x]);
            assert(p(i));
            assert(!rest.contains(i));
            assert(t[i] == cap[i]);
        } else if t[i] < cap[i] {
            assert(live.contains(i));
            assert(rest.contains(i));
            lemma_fill_is_level(cap, weight, rest, left, next, i, i);
            let low = sum(claims(cap, weight, rest));
            assert(0 <= next[i] <= cap[i]);
            let r = choose|r: int| 0 <= r < rest.len() && rest[r] == i;
            assert(t[i] >= 0);
            if low > 0 {
                assert(left * si < (t[i] + 1) * low);
                assert(remaining * si < (t[i] + 1) * w) by (nonlinear_arith)
                    requires
                        left * si < (t[i] + 1) * low,
                        left * w >= remaining * low,
                        low > 0,
                        w > 0,
                        si >= 0,
                {
                    assert(left * si * w < (t[i] + 1) * low * w) by (nonlinear_arith)
                        requires
                            left * si < (t[i] + 1) * low,
                            w > 0,
                    ;
                    assert(left * w * si >= remaining * low * si) by (nonlinear_arith)
                        requires
                            left * w >= remaining * low,
                            si >= 0,
                    ;
                    assert(low * (remaining * si) < low * ((t[i] + 1) * w)) by (nonlinear_arith)
                        requires
                            left * si * w < (t[i] + 1) * low * w,
                            left * w * si >= remaining * low * si,
                    ;
                    assert(remaining * si < (t[i] + 1) * w) by (nonlinear_arith)
                        requires
                            low * (remaining * si) < low * ((t[i] + 1) * w),
                            low > 0,
                    ;
                }
            } else {
                let cr = claims(cap, weight, rest);
                assert forall|x: int| 0 <= x < cr.len() implies 0 <= #[trigger] cr[x] by {
                    let y = rest[x];
                    assert(0 <= y < n);
                    assert(0 <= cap[y] && 0 <= weight[y]);
                    assert(0 <= cap[y] * weight[y]) by (nonlinear_arith)
                        requires
                            0 <= cap[y],
                            0 <= weight[y],
                    ;
                }
                lemma_sum_bounds(cr, 0);
                assert(cr[r] == si);
                assert(si == 0);
                assert(remaining * si < (t[i] + 1) * w) by (nonlinear_arith)
                    requires
                        si == 0,
                        t[i] >= 0,
                        w > 0,
                ;
            }
            if si + sj > 0 {
                if full.contains(j) {
                    let x = choose|x: int| 0 <= x < full.len() && full[x] == j;
                    assert(next[full[x]] == pick(cap, full)[x]);
                    assert(p(j));
                    assert(!rest.contains(j));
                    assert(t[j] == cap[j]);
                    assert(cap[j] * w < remaining * sj) by (nonlinear_arith)
                        requires
                            cap[j] > 0,
                            remaining * weight[j] > w,
                            sj == cap[j] * weight[j],
                    ;
                    assert((t[j] - 1) * w < remaining * sj) by (nonlinear_arith)
                        requires
                            t[j] == cap[j],
                            cap[j] * w < remaining * sj,
                            w > 0,
                    ;
                    lemma_cross(t[j], t[i], sj, si, remaining, w);
                } else {
                    assert(rest.contains(j));
                    lemma_fill_is_level(cap, weight, rest, left, next, i, j);
                }
            }
        }
    } else {
        assert(!overflows(cap, weight, live, remaining));
        let values = apportioned(remaining, scores);
        lemma_scatter(targets, live, values);
        assert(t[live[a]] == values[a]);
        assert(t[live[b]] == values[b]);
        law_shares_round_to_a_neighbour(remaining, scores, a);
        law_shares_round_to_a_neighbour(remaining, scores, b);
        if si + sj > 0 {
            lemma_cross(t[j], t[i], sj, si, remaining, w);
        }
    }
}

/// The same with lower bounds: of two cells above their lower bounds, one of them below
/// its capacity, the other gets no more for its claim, up to a unit each.
proof fn lemma_constrain_is_level(
    cap: Seq<int>,
    weight: Seq<int>,
    low: Seq<int>,
    active: Seq<int>,
    remaining: int,
    targets: Seq<int>,
    i: int,
    j: int,
)
    requires
        naturals(cap),
        naturals(weight),
        naturals(low),
        weight.len() == cap.len(),
        low.len() == cap.len(),
        targets.len() == cap.len(),
        are_places(active, cap.len() as int),
        forall|i: int| 0 <= i < cap.len() ==> (#[trigger] low[i]) <= cap[i],
        remaining >= sum(pick(low, active)),
        forall|i: int| 0 <= i < cap.len() ==> 0 <= #[trigger] targets[i] <= cap[i],
        forall|x: int| 0 <= x < active.len() ==> targets[#[trigger] active[x]] == 0,
        active.contains(i),
        active.contains(j),
        constrain(cap, weight, low, active, remaining, targets) is Some,
    ensures
        ({
            let t = constrain(cap, weight, low, active, remaining, targets)->0;
            let si = cap[i] * weight[i];
            let sj = cap[j] * weight[j];
            low[i] < t[i] < cap[i] && low[j] < t[j] && si + sj > 0 ==> t[j] * si < t[i] * sj + si
                + sj
        }),
    decreases active.len(),
{
    let n = cap.len() as int;
    let t = constrain(cap, weight, low, active, remaining, targets)->0;
    let lows = pick(low, active);
    assert forall|x: int| 0 <= x < lows.len() implies 0 <= #[trigger] lows[x] by {
        assert(0 <= active[x] < n);
        assert(0 <= low[active[x]]);
    }
    lemma_sum_bounds(lows, 0);
    lemma_fill(cap, weight, active, remaining, targets);
    let f = fill(cap, weight, active, remaining, targets)->0;
    let p = falls_short(f, low);
    let q = holds_up(f, low);
    let short = active.filter(p);
    let rest = active.filter(q);
    lemma_filter_parts(active, p, q);
    lemma_filter_places(active, p, n);
    lemma_filter_places(active, q, n);
    if short.len() == 0 {
        assert(t == f);
        lemma_fill_is_level(cap, weight, active, remaining, targets, i, j);
    } else {
        let values = pick(low, short);
        let next = scatter(targets, short, values);
        let left = remaining - sum(values);
        lemma_scatter(targets, short, values);
        assert(sum(pick(low, active)) == sum(pick(low, short)) + sum(pick(low, rest)));
        assert forall|y: int| 0 <= y < n implies 0 <= #[trigger] next[y] <= cap[y] by {
            assert(0 <= targets[y] <= cap[y]);
            assert(0 <= low[y] <= cap[y]);
            if short.contains(y) {
                let x = choose|x: int| 0 <= x < short.len() && short[x] == y;
                assert(next[short[x]] == values[x]);
            }
        }
        assert forall|x: int| 0 <= x < rest.len() implies next[#[trigger] rest[x]] == 0 by {
            let y = rest[x];
            assert(rest.contains(y));
            assert(active.contains(y));
            assert(!short.contains(y));
            let z = choose|z: int| 0 <= z < active.len() && active[z] == y;
            assert(targets[active[z]] == 0);
        }
        lemma_constrain(cap, weight, low, rest, left, next);
        assert forall|y: int| short.contains(y) implies t[y] == low[y] by {
            let x = choose|x: int| 0 <= x < short.len() && short[x] == y;
            assert(next[short[x]] == values[x]);
            assert(p(y));
            assert(!rest.contains(y));
            assert(0 <= short[x] < n);
            assert(t[y] == next[y]);
        }
        if low[i] < t[i] && low[j] < t[j] {
            assert(!short.contains(i) && !short.contains(j));
            assert(rest.contains(i) && rest.contains(j));
            lemma_constrain_is_level(cap, weight, low, rest, left, next, i, j);
        }
    }
}

proof fn lemma_constrained_is_level(
    cap: Seq<int>,
    weight: Seq<int>,
    low: Seq<int>,
    total: int,
    i: int,
    j: int,
)
    requires
        naturals(cap),
        naturals(low),
        weight.len() == cap.len(),
        low.len() == cap.len(),
        total >= 0,
        forall|i: int| 0 <= i < cap.len() ==> (#[trigger] low[i]) <= cap[i],
        forall|i: int| 0 <= i < weight.len() ==> (#[trigger] weight[i]) > 0,
        0 <= i < cap.len(),
        0 <= j < cap.len(),
    ensures
        constrained(cap, weight, low, total) matches Ok(t) ==> (low[i] < t[i] < cap[i] && low[j]
            < t[j] ==> t[j] * (cap[i] * weight[i]) < t[i] * (cap[j] * weight[j]) + cap[i]
            * weight[i] + cap[j] * weight[j]),
{
    let goal = crate::combat::least(total, sum(cap));
    lemma_sum_bounds(cap, 0);
    lemma_sum_bounds(low, 0);
    if let Ok(t) = constrained(cap, weight, low, total) {
        let all = all_places(cap.len());
        lemma_all_places(cap);
        lemma_all_places(low);
        assert(all[i] == i && all[j] == j);
        if low[i] < t[i] < cap[i] && low[j] < t[j] {
            lemma_constrain_is_level(cap, weight, low, all, goal, zeros(cap.len()), i, j);
            assert(cap[i] * weight[i] > 0) by (nonlinear_arith)
                requires
                    cap[i] > 0,
                    weight[i] > 0,
            ;
            assert(0 <= cap[j]);
            assert(cap[j] * weight[j] >= 0) by (nonlinear_arith)
                requires
                    cap[j] >= 0,
                    weight[j] > 0,
            ;
        }
    }
}

/// The two parts of a shape: what the drawn cells get and what the others keep.
proof fn lemma_shape_has_parts(
    cap: Seq<int>,
    weight: Seq<int>,
    low: Seq<int>,
    current: Seq<int>,
    total: int,
) -> (parts: (Seq<int>, Seq<int>))
    requires
        cap.len() == weight.len() == low.len() == current.len(),
        naturals(low),
        naturals(weight),
        total >= 0,
        forall|i: int|
            0 <= i < cap.len() ==> low[i] <= (#[trigger] current[i]) && current[i] <= cap[i],
        shaped_targets(cap, weight, low, current, total) is Ok,
    ensures
        ({
            let t = shaped_targets(cap, weight, low, current, total)->Ok_0;
            let p = preferred_places(weight);
            let f = fallback_places(weight);
            &&& preferred_targets(cap, weight, low, total) == Ok::<
                Seq<int>,
                crate::redistribution::DistributionError,
            >(parts.0)
            &&& fallback_targets(cap, weight, low, current, total - sum(parts.0)) == Ok::<
                Seq<int>,
                crate::redistribution::DistributionError,
            >(parts.1)
            &&& parts.0.len() == p.len()
            &&& parts.1.len() == f.len()
            &&& forall|x: int| 0 <= x < p.len() ==> t[#[trigger] p[x]] == parts.0[x]
            &&& forall|x: int| 0 <= x < f.len() ==> t[#[trigger] f[x]] == parts.1[x]
            &&& total >= sum(pick(low, f))
            &&& preferred_goal(cap, weight, low, total) >= 0
            &&& total - sum(parts.0) >= 0
            &&& forall|x: int|
                0 <= x < p.len() ==> 0 <= low[#[trigger] p[x]] <= cap[p[x]] && weight[p[x]] > 0
            &&& forall|x: int|
                0 <= x < f.len() ==> 0 <= low[#[trigger] f[x]] <= current[f[x]] <= cap[f[x]]
        }),
{
    let n = cap.len() as int;
    let p = preferred_places(weight);
    let f = fallback_places(weight);
    let t = shaped_targets(cap, weight, low, current, total)->Ok_0;
    lemma_kinds_of_places(weight);
    let tp = preferred_targets(cap, weight, low, total)->Ok_0;
    let tf = fallback_targets(cap, weight, low, current, total - sum(tp))->Ok_0;
    let keep = keepable(cap, current);
    assert forall|x: int| 0 <= x < p.len() implies 0 <= low[#[trigger] p[x]] <= cap[p[x]] && weight[p[x]]
        > 0 by {
        assert(0 <= p[x] < n);
        assert(low[p[x]] <= current[p[x]] && current[p[x]] <= cap[p[x]]);
        assert(0 <= low[p[x]]);
        assert(weight[preferred_places(weight)[x]] > 0);
    }
    assert forall|x: int| 0 <= x < f.len() implies 0 <= low[#[trigger] f[x]] <= current[f[x]]
        <= cap[f[x]] by {
        assert(0 <= f[x] < n);
        assert(low[f[x]] <= current[f[x]] && current[f[x]] <= cap[f[x]]);
        assert(0 <= low[f[x]]);
    }
    let cap_p = pick(cap, p);
    let low_p = pick(low, p);
    let w_p = pick(weight, p);
    let keep_f = pick(keep, f);
    let low_f = pick(low, f);
    assert forall|x: int| 0 <= x < cap_p.len() implies 0 <= #[trigger] cap_p[x] by {
        assert(0 <= low[p[x]] <= cap[p[x]]);
    }
    assert forall|x: int| 0 <= x < low_p.len() implies 0 <= #[trigger] low_p[x] <= cap_p[x] by {
        assert(0 <= low[p[x]] <= cap[p[x]]);
    }
    assert forall|x: int| 0 <= x < w_p.len() implies 0 < #[trigger] w_p[x] by {
        assert(0 <= low[p[x]] <= cap[p[x]]);
    }
    assert forall|x: int| 0 <= x < low_f.len() implies 0 <= #[trigger] low_f[x] <= keep_f[x] by {
        assert(0 <= low[f[x]] <= current[f[x]] <= cap[f[x]]);
    }
    assert forall|x: int| 0 <= x < keep_f.len() implies 0 <= #[trigger] keep_f[x] by {
        assert(0 <= low_f[x] <= keep_f[x]);
    }
    lemma_sum_bounds(cap_p, 0);
    lemma_sum_bounds(low_f, 0);
    let goal = preferred_goal(cap, weight, low, total);
    lemma_constrained(cap_p, w_p, low_p, goal);
    lemma_constrained(keep_f, uniform(f.len()), low_f, total - sum(tp));
    let base = zeros(cap.len());
    let mid = scatter(base, p, tp);
    lemma_scatter(base, p, tp);
    lemma_scatter(mid, f, tf);
    assert forall|x: int| 0 <= x < p.len() implies t[#[trigger] p[x]] == tp[x] by {
        assert(0 <= p[x] < n);
        assert(p.contains(p[x]));
        assert(!f.contains(p[x]));
        assert(mid[p[x]] == tp[x]);
        assert(t[p[x]] == mid[p[x]]);
    }
    assert forall|x: int| 0 <= x < f.len() implies t[#[trigger] f[x]] == tf[x] by {
        assert(scatter(mid, f, tf)[f[x]] == tf[x]);
    }
    (tp, tf)
}

/// Whether targets are those that the rules prescribe for a selection.
pub open spec fn are_targets(
    cells: Map<Axial, Cell>,
    owner: PlayerId,
    weights: Map<Axial, u32>,
    lower_bounds: Map<Axial, u64>,
    total: int,
    targets: Map<Axial, u64>,
) -> bool {
    let keys = ordered(weights.dom());
    &&& accepts(cells, owner, weights, lower_bounds)
    &&& prescribed(cells, weights, lower_bounds, total) is Ok
    &&& forall|i: int|
        #![trigger keys[i]]
        0 <= i < keys.len() ==> targets[keys[i]] == prescribed(
            cells,
            weights,
            lower_bounds,
            total,
        )->Ok_0[i]
}

/// The place of a cell in its selection.
proof fn lemma_place_in_selection(weights: Map<Axial, u32>, c: Axial) -> (i: int)
    requires
        weights.dom().finite(),
        weights.contains_key(c),
    ensures
        0 <= i < ordered(weights.dom()).len(),
        ordered(weights.dom())[i] == c,
{
    let keys = ordered(weights.dom());
    lemma_ordered(weights.dom());
    assert(keys.to_set().contains(c));
    assert(keys.contains(c));
    choose|i: int| 0 <= i < keys.len() && keys[i] == c
}

proof fn lemma_selection_is_sound(
    cells: Map<Axial, Cell>,
    owner: PlayerId,
    weights: Map<Axial, u32>,
    lower_bounds: Map<Axial, u64>,
)
    requires
        weights.dom().finite(),
        accepts(cells, owner, weights, lower_bounds),
    ensures
        ({
            let keys = ordered(weights.dom());
            let cap = capacities_at(cells, keys);
            let low = bounds_at(lower_bounds, keys);
            let current = forces_at(cells, keys);
            &&& naturals(low)
            &&& naturals(weights_at(weights, keys))
            &&& forall|i: int|
                0 <= i < cap.len() ==> low[i] <= (#[trigger] current[i]) && current[i] <= cap[i]
        }),
{
    let keys = ordered(weights.dom());
    let cap = capacities_at(cells, keys);
    let low = bounds_at(lower_bounds, keys);
    let current = forces_at(cells, keys);
    lemma_ordered(weights.dom());
    assert forall|i: int| 0 <= i < cap.len() implies low[i] <= (#[trigger] current[i]) && current[i]
        <= cap[i] by {
        assert(keys.to_set().contains(keys[i]));
        assert(weights.contains_key(keys[i]));
        assert(constraint_fault(cells, owner, lower_bounds[keys[i]], keys[i]) is None);
    }
}

/// Drawn cells share in proportion to their capacity times their weight, up to a unit
/// each. Of two drawn cells that get more than their lower bounds, one of which stays
/// below its capacity, the other gets no more for its score than that one; so where both
/// stay below, their shares compare as their scores do.
pub proof fn law_drawn_cells_share_by_weight(
    cells: Map<Axial, Cell>,
    owner: PlayerId,
    weights: Map<Axial, u32>,
    lower_bounds: Map<Axial, u64>,
    total: int,
    targets: Map<Axial, u64>,
    a: Axial,
    b: Axial,
)
    requires
        weights.dom().finite(),
        total >= 0,
        are_targets(cells, owner, weights, lower_bounds, total, targets),
        weights.contains_key(a),
        weights.contains_key(b),
        weights[a] > 0,
        weights[b] > 0,
        lower_bounds[a] < targets[a] < cells[a].military_capacity,
        lower_bounds[b] < targets[b],
    ensures
        ({
            let score_a = cells[a].military_capacity * weights[a];
            let score_b = cells[b].military_capacity * weights[b];
            &&& targets[b] * score_a < targets[a] * score_b + score_a + score_b
            &&& targets[b] < cells[b].military_capacity ==> targets[a] * score_b < targets[b]
                * score_a + score_a + score_b
        }),
{
    let keys = ordered(weights.dom());
    let cap = capacities_at(cells, keys);
    let weight = weights_at(weights, keys);
    let low = bounds_at(lower_bounds, keys);
    let current = forces_at(cells, keys);
    let i = lemma_place_in_selection(weights, a);
    let j = lemma_place_in_selection(weights, b);
    lemma_selection_is_sound(cells, owner, weights, lower_bounds);
    let (tp, tf) = lemma_shape_has_parts(cap, weight, low, current, total);
    let p = preferred_places(weight);
    lemma_kinds_of_places(weight);
    assert(weight[i] > 0 && weight[j] > 0);
    assert(p.contains(i) && p.contains(j));
    let x = choose|x: int| 0 <= x < p.len() && p[x] == i;
    let y = choose|y: int| 0 <= y < p.len() && p[y] == j;
    let t = prescribed(cells, weights, lower_bounds, total)->Ok_0;
    assert(targets[keys[i]] == t[i] && targets[keys[j]] == t[j]);
    assert(t[p[x]] == tp[x] && t[p[y]] == tp[y]);
    let cap_p = pick(cap, p);
    let low_p = pick(low, p);
    let w_p = pick(weight, p);
    assert forall|z: int| 0 <= z < cap_p.len() implies 0 <= #[trigger] cap_p[z] by {
        assert(0 <= low[p[z]] <= cap[p[z]]);
    }
    assert forall|z: int| 0 <= z < low_p.len() implies 0 <= #[trigger] low_p[z] <= cap_p[z] by {
        assert(0 <= low[p[z]] <= cap[p[z]]);
    }
    assert forall|z: int| 0 <= z < w_p.len() implies 0 < #[trigger] w_p[z] by {
        assert(0 <= low[p[z]] <= cap[p[z]]);
    }
    let goal = preferred_goal(cap, weight, low, total);
    lemma_constrained_is_level(cap_p, w_p, low_p, goal, x, y);
    lemma_constrained_is_level(cap_p, w_p, low_p, goal, y, x);
}

/// Cells outside the shape give up in proportion: of two such cells that keep more than
/// their lower bounds, one of which does not keep all that it holds, the other keeps no
/// more for what it holds, up to a unit each.
pub proof fn law_other_cells_give_up_evenly(
    cells: Map<Axial, Cell>,
    owner: PlayerId,
    weights: Map<Axial, u32>,
    lower_bounds: Map<Axial, u64>,
    total: int,
    targets: Map<Axial, u64>,
    a: Axial,
    b: Axial,
)
    requires
        weights.dom().finite(),
        total >= 0,
        are_targets(cells, owner, weights, lower_bounds, total, targets),
        weights.contains_key(a),
        weights.contains_key(b),
        weights[a] == 0,
        weights[b] == 0,
        lower_bounds[a] < targets[a] < cells[a].forces.infantry,
        lower_bounds[b] < targets[b],
    ensures
        targets[b] * cells[a].forces.infantry < targets[a] * cells[b].forces.infantry
            + cells[a].forces.infantry + cells[b].forces.infantry,
{
    let keys = ordered(weights.dom());
    let cap = capacities_at(cells, keys);
    let weight = weights_at(weights, keys);
    let low = bounds_at(lower_bounds, keys);
    let current = forces_at(cells, keys);
    let i = lemma_place_in_selection(weights, a);
    let j = lemma_place_in_selection(weights, b);
    lemma_selection_is_sound(cells, owner, weights, lower_bounds);
    let (tp, tf) = lemma_shape_has_parts(cap, weight, low, current, total);
    let f = fallback_places(weight);
    lemma_kinds_of_places(weight);
    assert(weight[i] <= 0 && weight[j] <= 0);
    assert(f.contains(i) && f.contains(j));
    let x = choose|x: int| 0 <= x < f.len() && f[x] == i;
    let y = choose|y: int| 0 <= y < f.len() && f[y] == j;
    let t = prescribed(cells, weights, lower_bounds, total)->Ok_0;
    assert(targets[keys[i]] == t[i] && targets[keys[j]] == t[j]);
    assert(t[f[x]] == tf[x] && t[f[y]] == tf[y]);
    let keep_f = pick(keepable(cap, current), f);
    let low_f = pick(low, f);
    let u = uniform(f.len());
    assert forall|z: int| 0 <= z < low_f.len() implies 0 <= #[trigger] low_f[z] <= keep_f[z] by {
        assert(0 <= low[f[z]] <= current[f[z]] <= cap[f[z]]);
    }
    assert forall|z: int| 0 <= z < keep_f.len() implies 0 <= #[trigger] keep_f[z] by {
        assert(0 <= low_f[z] <= keep_f[z]);
    }
    assert(0 <= low[f[x]] <= current[f[x]] <= cap[f[x]]);
    assert(0 <= low[f[y]] <= current[f[y]] <= cap[f[y]]);
    lemma_constrained_is_level(keep_f, u, low_f, total - sum(tp), x, y);
    let k = crate::redistribution::UNIFORM_ALLOCATION_WEIGHT as int;
    let ta = targets[a] as int;
    let tb = targets[b] as int;
    let fa = cells[a].forces.infantry as int;
    let fb = cells[b].forces.infantry as int;
    assert(u[x] == k && u[y] == k);
    assert(tb * (fa * k) < ta * (fb * k) + fa * k + fb * k);
    assert(tb * fa < ta * fb + fa + fb) by (nonlinear_arith)
        requires
            tb * (fa * k) < ta * (fb * k) + fa * k + fb * k,
            k > 0,
    {
        assert(k * (tb * fa) < k * (ta * fb + fa + fb)) by (nonlinear_arith)
            requires
                tb * (fa * k) < ta * (fb * k) + fa * k + fb * k,
        ;
        assert(tb * fa < ta * fb + fa + fb) by (nonlinear_arith)
            requires
                k * (tb * fa) < k * (ta * fb + fa + fb),
                k > 0,
        ;
    }
}

/// The shape comes first, said of the cells: all strength is placed, and unless the cells
/// outside the shape keep nothing but their lower bounds, every drawn cell is full.
pub proof fn law_drawn_cells_come_first(
    cells: Map<Axial, Cell>,
    owner: PlayerId,
    weights: Map<Axial, u32>,
    lower_bounds: Map<Axial, u64>,
    total: int,
    targets: Map<Axial, u64>,
    a: Axial,
    b: Axial,
)
    requires
        weights.dom().finite(),
        total >= 0,
        are_targets(cells, owner, weights, lower_bounds, total, targets),
        weights.contains_key(a),
        weights.contains_key(b),
        weights[a] == 0,
        weights[b] > 0,
    ensures
        lower_bounds[a] <= targets[a] <= cells[a].forces.infantry,
        lower_bounds[b] <= targets[b] <= cells[b].military_capacity,
        targets[a] > lower_bounds[a] ==> targets[b] == cells[b].military_capacity,
        ({
            let keys = ordered(weights.dom());
            sum(Seq::new(keys.len(), |i: int| targets[keys[i]] as int)) == total
        }),
{
    let keys = ordered(weights.dom());
    let cap = capacities_at(cells, keys);
    let weight = weights_at(weights, keys);
    let low = bounds_at(lower_bounds, keys);
    let current = forces_at(cells, keys);
    let i = lemma_place_in_selection(weights, a);
    let j = lemma_place_in_selection(weights, b);
    lemma_selection_is_sound(cells, owner, weights, lower_bounds);
    crate::redistribution::law_shape_comes_first(cap, weight, low, current, total);
    let t = prescribed(cells, weights, lower_bounds, total)->Ok_0;
    assert(targets[keys[i]] == t[i] && targets[keys[j]] == t[j]);
    assert(low[i] <= t[i] <= cap[i] && low[j] <= t[j] <= cap[j]);
    assert(Seq::new(keys.len(), |i: int| targets[keys[i]] as int) =~= t) by {
        assert forall|k: int| 0 <= k < keys.len() implies targets[keys[k]] == t[k] by {
            assert(targets[keys[k]] == t[k]);
        }
    }
}

/// The same of a dense distribution: a cell that stays below its capacity gets no less
/// for its score, capacity times weight, than any other, up to a unit each.
pub proof fn law_dense_targets_follow_the_weights(
    coordinates: Seq<Axial>,
    capacities: Seq<int>,
    weights: Seq<int>,
    total: int,
    order: Seq<int>,
    i: int,
    j: int,
)
    requires
        is_coordinate_order(coordinates, order),
        coordinates.len() == capacities.len() == weights.len(),
        naturals(capacities),
        naturals(weights),
        total >= 0,
        0 <= i < coordinates.len(),
        0 <= j < coordinates.len(),
    ensures
        dense_targets(coordinates, capacities, weights, total) matches Some(t) ==> {
            let si = capacities[i] * weights[i];
            let sj = capacities[j] * weights[j];
            t[i] < capacities[i] && si + sj > 0 ==> t[j] * si < t[i] * sj + si + sj
        },
{
    lemma_coordinate_order(coordinates, order);
    lemma_sum_bounds(capacities, 0);
    if dense_targets(coordinates, capacities, weights, total) is Some {
        assert(order.contains(i) && order.contains(j));
        let start = zeros(coordinates.len());
        assert forall|x: int| 0 <= x < order.len() implies start[#[trigger] order[x]] == 0 by {
            assert(0 <= order[x] < coordinates.len());
        }
        assert forall|y: int| 0 <= y < capacities.len() implies 0 <= #[trigger] start[y]
            <= capacities[y] by {
            assert(0 <= capacities[y]);
        }
        lemma_fill_is_level(
            capacities,
            weights,
            order,
            crate::combat::least(total, sum(capacities)),
            start,
            i,
            j,
        );
    }
}

} // verus!
