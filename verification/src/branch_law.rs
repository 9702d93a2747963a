//! What branching means: that more goes toward the focus, that nobody is left out
//! while there is enough, and that turns are taken.
use vstd::prelude::*;
use crate::apportion::{ahead, floors, leftover, lemma_leftover, remainder_of};
use crate::branching::{
    branch_weight, child_at, is_allocation_list, is_next_cursor, lemma_places,
    lemma_prefixes_ordered, overlap, place_of, quota_of, rotated_weights,
    BranchContributionAllocation,
};
use crate::coord::{hex_distance, Axial};
use crate::order::{lemma_sum_bounds, sum};
use crate::share_law::{law_greater_scores_get_no_less, law_shares_round_to_a_neighbour};
use crate::waterfill::naturals;

verus! {

/// The closer a branch leads to the focus, the more it weighs, and none weighs
/// nothing: toward the focus three times as much as away from it, and alongside
/// twice as much.
pub proof fn law_branches_toward_the_focus_weigh_more(
    parent: Axial,
    toward: Axial,
    alongside: Axial,
    away: Axial,
    focus: Axial,
    weights: (int, int, int),
)
    requires
        hex_distance(toward, focus) < hex_distance(parent, focus),
        hex_distance(alongside, focus) == hex_distance(parent, focus),
        hex_distance(away, focus) > hex_distance(parent, focus),
        weights.0 == branch_weight(parent, toward, focus),
        weights.1 == branch_weight(parent, alongside, focus),
        weights.2 == branch_weight(parent, away, focus),
    ensures
        0 < weights.2 < weights.1 < weights.0,
        weights.1 == 2 * weights.2,
        weights.0 == 3 * weights.2,
        weights.2 == 1,
{
}

/// Of two branches the one that ends closer to the focus weighs no less.
pub proof fn law_nearer_branches_weigh_no_less(parent: Axial, a: Axial, b: Axial, focus: Axial)
    requires
        hex_distance(a, focus) <= hex_distance(b, focus),
    ensures
        branch_weight(parent, a, focus) >= branch_weight(parent, b, focus) > 0,
{
}

/// Quotas as they are handed out.
pub open spec fn are_quotas(
    total: int,
    weights: Seq<u8>,
    cursor: int,
    quotas: Seq<u64>,
) -> bool {
    &&& 0 <= cursor < weights.len()
    &&& total >= 0
    &&& forall|i: int| 0 <= i < weights.len() ==> (#[trigger] weights[i]) > 0
    &&& quotas.len() == weights.len()
    &&& forall|c: int|
        0 <= c < weights.len() ==> #[trigger] quotas[c] == quota_of(total, weights, cursor, c)
}

/// Where there is too little for everyone, nobody gets more than one unit, and
/// units go round from the cursor on: whoever gets one, so does everyone between
/// the cursor and them.
pub proof fn law_scarce_units_go_round(
    total: int,
    weights: Seq<u8>,
    cursor: int,
    quotas: Seq<u64>,
    earlier: int,
    later: int,
)
    requires
        are_quotas(total, weights, cursor, quotas),
        total < weights.len(),
        0 <= earlier < later < weights.len(),
    ensures
        quotas[(cursor + earlier) % weights.len() as int] == (if earlier < total {
            1
        } else {
            0int
        }),
        quotas[(cursor + later) % weights.len() as int] <= quotas[(cursor + earlier)
            % weights.len() as int] <= 1,
{
    let n = weights.len() as int;
    lemma_places(cursor, n);
    let a = child_at(cursor, n, earlier);
    let b = child_at(cursor, n, later);
    assert(place_of(cursor, n, a) == earlier);
    assert(place_of(cursor, n, b) == later);
    assert(quotas[a] == quota_of(total, weights, cursor, a));
    assert(quotas[b] == quota_of(total, weights, cursor, b));
}

proof fn lemma_rotated(weights: Seq<u8>, cursor: int)
    requires
        0 <= cursor < weights.len(),
        forall|i: int| 0 <= i < weights.len() ==> (#[trigger] weights[i]) > 0,
    ensures
        forall|p: int|
            0 <= p < weights.len() ==> 0 < #[trigger] rotated_weights(weights, cursor)[p],
        sum(rotated_weights(weights, cursor)) > 0,
{
    let n = weights.len() as int;
    let s = rotated_weights(weights, cursor);
    lemma_places(cursor, n);
    assert forall|p: int| 0 <= p < n implies 0 < #[trigger] s[p] by {
        assert(0 <= child_at(cursor, n, p) < n);
        assert(weights[child_at(cursor, n, p)] > 0);
    }
    lemma_sum_bounds(s, 1);
    assert(s.take(1).drop_last().len() == 0);
    assert(sum(s.take(1)) == s[0]) by {
        assert(s.take(1).last() == s[0]);
        assert(sum(s.take(1).drop_last()) == 0);
    }
}

/// Where there is enough, everyone gets a unit first, and the rest in proportion
/// to the weights: of two branches the heavier one gets no less, and equal ones
/// differ by a unit at most.
pub proof fn law_quotas_follow_the_weights(
    total: int,
    weights: Seq<u8>,
    cursor: int,
    quotas: Seq<u64>,
    heavy: int,
    light: int,
)
    requires
        are_quotas(total, weights, cursor, quotas),
        total >= weights.len(),
        0 <= heavy < weights.len(),
        0 <= light < weights.len(),
        heavy != light,
        weights[heavy] >= weights[light],
    ensures
        quotas[light] >= 1,
        weights[heavy] > weights[light] ==> quotas[heavy] >= quotas[light],
        weights[heavy] == weights[light] ==> -1 <= quotas[heavy] - quotas[light] <= 1,
        ({
            let rest = total - weights.len();
            let all = sum(rotated_weights(weights, cursor));
            &&& (quotas[heavy] - 2) * all < rest * weights[heavy]
            &&& rest * weights[heavy] < quotas[heavy] * all
        }),
{
    let n = weights.len() as int;
    let s = rotated_weights(weights, cursor);
    lemma_places(cursor, n);
    lemma_rotated(weights, cursor);
    let a = place_of(cursor, n, heavy);
    let b = place_of(cursor, n, light);
    assert(child_at(cursor, n, a) == heavy);
    assert(child_at(cursor, n, b) == light);
    assert(s[a] == weights[heavy]);
    assert(s[b] == weights[light]);
    assert(quotas[heavy] == quota_of(total, weights, cursor, heavy));
    assert(quotas[light] == quota_of(total, weights, cursor, light));
    law_shares_round_to_a_neighbour(total - n, s, a);
    law_shares_round_to_a_neighbour(total - n, s, b);
    if s[a] > s[b] || a < b {
        law_greater_scores_get_no_less(total - n, s, a, b);
    } else {
        law_greater_scores_get_no_less(total - n, s, b, a);
    }
}

/// Where all branches weigh the same, turns are taken: the next hand-out begins
/// behind the branches that got one unit more than the others in this one.
pub proof fn law_equal_branches_take_turns(
    total: int,
    weights: Seq<u8>,
    cursor: int,
    next: int,
)
    requires
        0 <= cursor < weights.len(),
        total >= 0,
        forall|i: int| 0 <= i < weights.len() ==> (#[trigger] weights[i]) > 0,
        forall|i: int, j: int|
            0 <= i < weights.len() && 0 <= j < weights.len() ==> #[trigger] weights[i]
                == #[trigger] weights[j],
        is_next_cursor(total, weights, cursor, next),
    ensures
        next == (cursor + total) % weights.len() as int,
{
    let n = weights.len() as int;
    let s = rotated_weights(weights, cursor);
    let w = weights[0] as int;
    lemma_places(cursor, n);
    if total >= n {
        lemma_rotated(weights, cursor);
        assert forall|p: int| 0 <= p < n implies #[trigger] s[p] == w by {
            assert(0 <= child_at(cursor, n, p) < n);
        }
        let rest = total - n;
        lemma_equal_shares(rest, s, w);
        let over = leftover(rest, s);
        assert(over == rest % n);
        vstd::arithmetic::div_mod::lemma_fundamental_div_mod(rest, n);
        let k = rest / n;
        if over != 0 {
            let p = choose|p: int|
                0 <= p < n && ahead(rest, s, p).len() == over - 1 && next == (#[trigger] child_at(
                    cursor,
                    n,
                    p,
                ) + 1) % n;
            assert(ahead(rest, s, p).len() == p);
            assert(p == over - 1);
            vstd::arithmetic::div_mod::lemma_add_mod_noop_right(1, cursor + p, n);
            assert(next == (cursor + over) % n);
        } else {
            vstd::arithmetic::div_mod::lemma_small_mod(cursor as nat, n as nat);
            assert(next == (cursor + over) % n);
        }
        vstd::arithmetic::div_mod::lemma_mod_multiples_vanish(k + 1, cursor + over, n);
        assert(n * (k + 1) + (cursor + over) == cursor + total) by (nonlinear_arith)
            requires
                rest == n * k + over,
                rest == total - n,
        ;
    }
}

proof fn lemma_equal_shares(amount: int, scores: Seq<int>, w: int)
    requires
        amount >= 0,
        scores.len() > 0,
        w > 0,
        forall|p: int| 0 <= p < scores.len() ==> #[trigger] scores[p] == w,
    ensures
        leftover(amount, scores) == amount % scores.len() as int,
        forall|p: int|
            0 <= p < scores.len() ==> #[trigger] ahead(amount, scores, p).len() == p,
{
    let n = scores.len() as int;
    lemma_constant_sum(scores, w);
    assert(sum(scores) > 0) by (nonlinear_arith)
        requires
            sum(scores) == w * n,
            w > 0,
            n > 0,
    ;
    lemma_leftover(amount, scores);
    let f = (amount * w) / (w * n);
    let fs = floors(amount, scores);
    assert forall|p: int| 0 <= p < fs.len() implies #[trigger] fs[p] == f by {}
    lemma_constant_sum(fs, f);
    let over = leftover(amount, scores);
    assert(over == amount - f * n);
    assert(over == amount % n) by {
        vstd::arithmetic::div_mod::lemma_fundamental_div_mod_converse(amount, n, f, over);
    }
    assert forall|p: int| 0 <= p < n implies #[trigger] ahead(amount, scores, p).len() == p by {
        let set = ahead(amount, scores, p);
        assert forall|j: int| 0 <= j < n implies remainder_of(amount, scores, j) == remainder_of(
            amount,
            scores,
            p,
        ) by {
            assert(scores[j] == w && scores[p] == w);
        }
        let range = vstd::set_lib::set_int_range(0, p);
        assert(set =~= range);
        vstd::set_lib::lemma_int_range(0, p);
    }
}

proof fn lemma_constant_sum(s: Seq<int>, w: int)
    requires
        forall|p: int| 0 <= p < s.len() ==> #[trigger] s[p] == w,
    ensures
        sum(s) == w * s.len(),
    decreases s.len(),
{
    if s.len() > 0 {
        lemma_constant_sum(s.drop_last(), w);
        assert(w * (s.len() - 1) + w == w * s.len()) by (nonlinear_arith);
    } else {
        assert(w * 0 == 0);
    }
}

/// Contributions are laid out over the branches in order: no part of a later
/// contribution goes to an earlier branch than a part of an earlier one.
pub proof fn law_contributions_keep_their_order(
    contributions: Seq<int>,
    quotas: Seq<int>,
    list: Seq<BranchContributionAllocation>,
    x: int,
    y: int,
)
    requires
        naturals(contributions),
        naturals(quotas),
        is_allocation_list(contributions, quotas, list),
        0 <= x < list.len(),
        0 <= y < list.len(),
        list[x].contribution_index < list[y].contribution_index,
    ensures
        list[x].child_index <= list[y].child_index,
        x < y,
{
    let k = list[x].contribution_index as int;
    let l = list[y].contribution_index as int;
    let c = list[x].child_index as int;
    let d = list[y].child_index as int;
    lemma_prefixes_ordered(contributions, k, l);
    if d < c {
        lemma_prefixes_ordered(quotas, d, c);
        assert(overlap(contributions, quotas, k, c) > 0);
        assert(overlap(contributions, quotas, l, d) > 0);
    }
    if y <= x {
        if y < x {
            assert(crate::branching::allocation_lt(list[y], list[x]));
        }
    }
}

} // verus!
