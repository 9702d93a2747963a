//! Weighted allocation of strength to the branches of a wave.
use vstd::prelude::*;
use crate::apportion::{ahead, apportioned, largest_remainder, leftover, wide};
use crate::coord::{hex_distance, Axial};
use crate::order::{checked_sum, ints, lemma_sum_add, lemma_sum_bounds, lemma_sum_concat, sum};
use crate::waterfill::naturals;

verus! {

/// Mild deterministic bias used by a branching wave relative to a focus hex.
///
/// The comparison is deliberately local to `parent`: the clicked focus acts
/// like a scalar potential, not one global heading copied onto every front.
/// Consequently, opposed edges around an enclosed focus point in opposed
/// directions. Every branch remains eligible: moving toward the focus receives
/// weight 3, moving along an equal-distance contour receives weight 2, and
/// moving away receives weight 1.
pub fn focus_branch_weight(parent: Axial, child: Axial, focus: Axial) -> (weight: u8)
    ensures
        weight == branch_weight(parent, child, focus),
{
    let near: u64 = child.distance(focus);
    let far: u64 = parent.distance(focus);
    if near < far {
        3
    } else if near == far {
        2
    } else {
        1
    }
}

/// The weight of a branch: more toward the focus, less away from it.
pub open spec fn branch_weight(parent: Axial, child: Axial, focus: Axial) -> int {
    if hex_distance(child, focus) < hex_distance(parent, focus) {
        3
    } else if hex_distance(child, focus) == hex_distance(parent, focus) {
        2
    } else {
        1
    }
}

#[derive(Clone, Copy, Debug, Eq, PartialEq, Structural)]
pub enum BranchAllocationError {
    EmptyChildren,
    ZeroWeight { child_index: usize },
    ArithmeticOverflow,
    AllocationMismatch,
}

/// Exact child quotas for one branching node.
#[derive(Clone, Debug, Eq, PartialEq)]
pub struct WeightedBranchQuotas {
    pub by_child: Vec<u64>,
    /// Opaque child-index cursor to feed into the next allocation at this node.
    pub next_cursor: usize,
}

/// One conserved part of an input contribution assigned to one child.
#[derive(Clone, Copy, Debug, Eq, PartialEq, Structural)]
pub struct BranchContributionAllocation {
    pub contribution_index: usize,
    pub child_index: usize,
    pub amount: u64,
}

/// Contribution-preserving allocations for an authoritative branching node.
#[derive(Clone, Debug, Eq, PartialEq)]
pub struct WeightedBranchAllocations {
    pub allocations: Vec<BranchContributionAllocation>,
    /// Opaque child-index cursor to feed into the next allocation at this node.
    pub next_cursor: usize,
}

/// The child at a place in the rotation that begins at the cursor.
pub open spec fn child_at(cursor: int, n: int, place: int) -> int {
    (cursor + place) % n
}

/// The place of a child in the rotation that begins at the cursor.
pub open spec fn place_of(cursor: int, n: int, child: int) -> int {
    (child + n - cursor) % n
}

/// The weights in the order of the rotation.
pub open spec fn rotated_weights(weights: Seq<u8>, cursor: int) -> Seq<int> {
    Seq::new(
        weights.len(),
        |p: int| weights[child_at(cursor, weights.len() as int, p)] as int,
    )
}

/// The quota of a child. Where the strength does not go round, the first
/// children of the rotation get one unit each. Otherwise every child gets one
/// unit, and the rest is apportioned by weight.
pub open spec fn quota_of(total: int, weights: Seq<u8>, cursor: int, child: int) -> int {
    let n = weights.len() as int;
    let place = place_of(cursor, n, child);
    if total < n {
        if place < total {
            1
        } else {
            0
        }
    } else {
        1 + apportioned(total - n, rotated_weights(weights, cursor))[place]
    }
}

/// Where the next rotation begins: behind the last child that got a unit out
/// of turn.
pub open spec fn is_next_cursor(total: int, weights: Seq<u8>, cursor: int, next: int) -> bool {
    let n = weights.len() as int;
    let scores = rotated_weights(weights, cursor);
    let over = leftover(total - n, scores);
    if total < n {
        next == (cursor + total) % n
    } else if over == 0 {
        next == cursor
    } else {
        exists|p: int|
            0 <= p < n && ahead(total - n, scores, p).len() == over - 1 && next == (
            #[trigger] child_at(cursor, n, p) + 1) % n
    }
}

/// The child at a place of the rotation, computed without overflow.
fn rotate(cursor: usize, n: usize, place: usize) -> (child: usize)
    requires
        cursor < n,
        place < n,
    ensures
        child == child_at(cursor as int, n as int, place as int),
        child < n,
{
    if place < n - cursor {
        assert((cursor + place) % n as int == cursor + place) by {
            vstd::arithmetic::div_mod::lemma_small_mod((cursor + place) as nat, n as nat);
        }
        cursor + place
    } else {
        proof {
            let x = cursor + place - n;
            vstd::arithmetic::div_mod::lemma_mod_add_multiples_vanish(x, n as int);
            vstd::arithmetic::div_mod::lemma_small_mod(x as nat, n as nat);
        }
        place - (n - cursor)
    }
}

pub proof fn lemma_places(cursor: int, n: int)
    requires
        0 <= cursor < n,
    ensures
        forall|c: int| 0 <= c < n ==> 0 <= #[trigger] place_of(cursor, n, c) < n,
        forall|c: int|
            0 <= c < n ==> #[trigger] place_of(cursor, n, c) == (if c >= cursor {
                c - cursor
            } else {
                c + n - cursor
            }),
        forall|p: int|
            0 <= p < n ==> #[trigger] child_at(cursor, n, p) == (if p < n - cursor {
                cursor + p
            } else {
                cursor + p - n
            }),
        forall|p: int| 0 <= p < n ==> place_of(cursor, n, #[trigger] child_at(cursor, n, p)) == p,
        forall|c: int| 0 <= c < n ==> child_at(cursor, n, #[trigger] place_of(cursor, n, c)) == c,
{
    assert forall|c: int| 0 <= c < n implies 0 <= #[trigger] place_of(cursor, n, c) < n && place_of(
        cursor,
        n,
        c,
    ) == (if c >= cursor {
        c - cursor
    } else {
        c + n - cursor
    }) by {
        if c >= cursor {
            vstd::arithmetic::div_mod::lemma_mod_add_multiples_vanish(c - cursor, n);
            vstd::arithmetic::div_mod::lemma_small_mod((c - cursor) as nat, n as nat);
        } else {
            vstd::arithmetic::div_mod::lemma_small_mod((c + n - cursor) as nat, n as nat);
        }
    }
    assert forall|p: int| 0 <= p < n implies #[trigger] child_at(cursor, n, p) == (if p < n
        - cursor {
        cursor + p
    } else {
        cursor + p - n
    }) by {
        if p < n - cursor {
            vstd::arithmetic::div_mod::lemma_small_mod((cursor + p) as nat, n as nat);
        } else {
            vstd::arithmetic::div_mod::lemma_mod_add_multiples_vanish(cursor + p - n, n);
            vstd::arithmetic::div_mod::lemma_small_mod((cursor + p - n) as nat, n as nat);
        }
    }
}

/// Turning a sequence back from the rotation keeps its sum.
proof fn lemma_unrotated_sum(cursor: int, s: Seq<int>, t: Seq<int>)
    requires
        0 <= cursor < s.len(),
        t.len() == s.len(),
        forall|c: int|
            0 <= c < s.len() ==> #[trigger] t[c] == s[place_of(cursor, s.len() as int, c)],
    ensures
        sum(t) == sum(s),
{
    let n = s.len() as int;
    lemma_places(cursor, n);
    let a = s.subrange(0, n - cursor);
    let b = s.subrange(n - cursor, n);
    assert(s =~= a + b);
    assert(t =~= b + a);
    lemma_sum_concat(a, b);
    lemma_sum_concat(b, a);
}

/// Divides `total` across positive child weights with exact conservation.
///
/// When strength permits, every child first receives a one-unit baseline so a
/// focus bias never switches off the other fronts. If there is not enough for
/// every child, distinct children receive one unit in cursor order. Remaining
/// strength is apportioned by weight using integer largest remainders; equal
/// remainders use the rotating cursor as their deterministic tie-break. The
/// returned cursor should be persisted by the caller for fair later arrivals.
pub fn weighted_branch_quotas_rotated(total: u64, child_weights: &[u8], start_cursor: usize) -> (
    quotas: Result<WeightedBranchQuotas, BranchAllocationError>)
    ensures
        match quotas {
            Ok(q) => {
                let n = child_weights@.len() as int;
                let cursor = start_cursor as int % n;
                &&& n > 0
                &&& forall|i: int| 0 <= i < n ==> (#[trigger] child_weights@[i]) > 0
                &&& q.by_child@.len() == n
                &&& forall|c: int|
                    0 <= c < n ==> #[trigger] q.by_child@[c] == quota_of(
                        total as int,
                        child_weights@,
                        cursor,
                        c,
                    )
                &&& is_next_cursor(total as int, child_weights@, cursor, q.next_cursor as int)
                &&& q.next_cursor < n
                &&& sum(ints(q.by_child@)) == total
                &&& total >= n ==> forall|c: int| 0 <= c < n ==> (#[trigger] q.by_child@[c]) >= 1
            },
            Err(BranchAllocationError::EmptyChildren) => child_weights@.len() == 0,
            Err(BranchAllocationError::ZeroWeight { child_index }) => {
                &&& child_index < child_weights@.len()
                &&& child_weights@[child_index as int] == 0
                &&& forall|i: int| 0 <= i < child_index ==> (#[trigger] child_weights@[i]) > 0
            },
            Err(_) => false,
        },
{
    let n: usize = child_weights.len();
    if n == 0 {
        return Err(BranchAllocationError::EmptyChildren);
    }
    let mut i: usize = 0;
    while i < n
        invariant
            i <= n,
            n == child_weights@.len(),
            forall|j: int| 0 <= j < i ==> (#[trigger] child_weights@[j]) > 0,
        decreases n - i,
    {
        if child_weights[i] == 0 {
            return Err(BranchAllocationError::ZeroWeight { child_index: i });
        }
        i += 1;
    }
    let cursor: usize = start_cursor % n;
    proof {
        lemma_places(cursor as int, n as int);
    }
    if total < n as u64 {
        return Ok(sparse_quotas(total as usize, child_weights, cursor));
    }
    Ok(full_quotas(total, child_weights, cursor))
}

/// One unit each for the first children of the rotation.
fn sparse_quotas(assigned: usize, child_weights: &[u8], cursor: usize) -> (q: WeightedBranchQuotas)
    requires
        cursor < child_weights@.len(),
        assigned < child_weights@.len(),
    ensures
        q.by_child@.len() == child_weights@.len(),
        forall|c: int|
            0 <= c < child_weights@.len() ==> #[trigger] q.by_child@[c] == quota_of(
                assigned as int,
                child_weights@,
                cursor as int,
                c,
            ),
        q.next_cursor == (cursor + assigned) % child_weights@.len() as int,
        q.next_cursor < child_weights@.len(),
        sum(ints(q.by_child@)) == assigned,
{
    let n: usize = child_weights.len();
    let mut by_child: Vec<u64> = Vec::new();
    let ghost places = Seq::new(
        n as nat,
        |p: int|
            if p < assigned {
                1int
            } else {
                0int
            },
    );
    proof {
        lemma_places(cursor as int, n as int);
    }
    let mut c: usize = 0;
    while c < n
        invariant
            c <= n,
            n == child_weights@.len(),
            cursor < n,
            assigned < n,
            by_child@.len() == c,
            forall|c: int|
                0 <= c < n ==> #[trigger] place_of(cursor as int, n as int, c) == (if c >= cursor {
                    c - cursor
                } else {
                    c + n - cursor
                }),
            forall|d: int|
                0 <= d < c ==> #[trigger] by_child@[d] == quota_of(
                    assigned as int,
                    child_weights@,
                    cursor as int,
                    d,
                ),
        decreases n - c,
    {
        let place: usize = if c >= cursor {
            c - cursor
        } else {
            n - cursor + c
        };
        assert(place == place_of(cursor as int, n as int, c as int));
        let quota: u64 = if place < assigned {
            1
        } else {
            0
        };
        by_child.push(quota);
        c += 1;
    }
    proof {
        assert forall|d: int| 0 <= d < n implies #[trigger] ints(by_child@)[d] == places[place_of(
            cursor as int,
            n as int,
            d,
        )] by {
            assert(0 <= place_of(cursor as int, n as int, d) < n);
            assert(by_child@[d] == quota_of(assigned as int, child_weights@, cursor as int, d));
        }
        lemma_unrotated_sum(cursor as int, places, ints(by_child@));
        lemma_sum_indicator(places, assigned as int);
    }
    let next_cursor: usize = rotate(cursor, n, assigned);
    WeightedBranchQuotas { by_child, next_cursor }
}

proof fn lemma_sum_indicator(s: Seq<int>, k: int)
    requires
        0 <= k <= s.len(),
        forall|i: int|
            0 <= i < s.len() ==> #[trigger] s[i] == (if i < k {
                1int
            } else {
                0int
            }),
    ensures
        sum(s) == k,
    decreases s.len(),
{
    if s.len() > 0 {
        let d = s.drop_last();
        if k == s.len() {
            lemma_sum_indicator(d, k - 1);
        } else {
            lemma_sum_indicator(d, k);
        }
    }
}

/// One unit for every child and the rest by weight.
fn full_quotas(total: u64, child_weights: &[u8], cursor: usize) -> (q: WeightedBranchQuotas)
    requires
        cursor < child_weights@.len(),
        total >= child_weights@.len(),
        forall|i: int| 0 <= i < child_weights@.len() ==> (#[trigger] child_weights@[i]) > 0,
    ensures
        q.by_child@.len() == child_weights@.len(),
        forall|c: int|
            0 <= c < child_weights@.len() ==> #[trigger] q.by_child@[c] == quota_of(
                total as int,
                child_weights@,
                cursor as int,
                c,
            ),
        is_next_cursor(total as int, child_weights@, cursor as int, q.next_cursor as int),
        q.next_cursor < child_weights@.len(),
        sum(ints(q.by_child@)) == total,
        forall|c: int| 0 <= c < q.by_child@.len() ==> (#[trigger] q.by_child@[c]) >= 1,
{
    let n: usize = child_weights.len();
    let rest: u64 = total - n as u64;
    let ghost scores_view = rotated_weights(child_weights@, cursor as int);
    let mut scores: Vec<u128> = Vec::new();
    let mut weight_sum: u128 = 0;
    proof {
        lemma_places(cursor as int, n as int);
        assert(scores_view.take(0) =~= Seq::empty());
    }
    let mut p: usize = 0;
    while p < n
        invariant
            p <= n,
            n == child_weights@.len(),
            cursor < n,
            scores@.len() == p,
            scores_view == rotated_weights(child_weights@, cursor as int),
            forall|j: int| 0 <= j < p ==> #[trigger] scores@[j] == scores_view[j],
            forall|j: int| 0 <= j < p ==> (#[trigger] scores@[j]) <= 255,
            weight_sum == sum(scores_view.take(p as int)),
            weight_sum <= 255 * p,
        decreases n - p,
    {
        let child: usize = rotate(cursor, n, p);
        let weight: u128 = child_weights[child] as u128;
        scores.push(weight);
        assert(scores_view.take(p + 1).drop_last() =~= scores_view.take(p as int));
        weight_sum = weight_sum + weight;
        p += 1;
    }
    proof {
        assert(scores_view.take(p as int) =~= scores_view);
        assert(wide(scores@) =~= scores_view);
        assert forall|j: int| 0 <= j < n implies 0 < #[trigger] scores_view[j] by {
            assert(0 <= child_at(cursor as int, n as int, j) < n);
        }
        lemma_sum_bounds(scores_view, 0);
        assert(scores_view[0] <= sum(scores_view));
        assert forall|i: int| 0 <= i < scores@.len() implies rest * (#[trigger] scores@[i])
            <= u128::MAX by {
            assert(rest * scores@[i] <= 0xffff_ffff_ffff_ffff * 255) by (nonlinear_arith)
                requires
                    0 <= rest <= 0xffff_ffff_ffff_ffff,
                    0 <= scores@[i] <= 255,
            ;
        }
    }
    let (shares, last) = largest_remainder(rest, scores.as_slice(), weight_sum);
    let ghost parts = ints(shares@);
    let mut by_child: Vec<u64> = Vec::new();
    let mut c: usize = 0;
    proof {
        assert(shares@.len() == parts.len());
        assert forall|j: int| 0 <= j < parts.len() implies 0 <= #[trigger] parts[j] by {}
        lemma_sum_bounds(parts, 0);
    }
    while c < n
        invariant
            c <= n,
            n == child_weights@.len(),
            cursor < n,
            total >= n,
            rest == total - n,
            by_child@.len() == c,
            shares@.len() == n,
            parts == ints(shares@),
            parts == apportioned(rest as int, scores_view),
            scores_view == rotated_weights(child_weights@, cursor as int),
            forall|j: int| 0 <= j < parts.len() ==> #[trigger] parts[j] <= rest,
            forall|c: int|
                0 <= c < n ==> #[trigger] place_of(cursor as int, n as int, c) == (if c >= cursor {
                    c - cursor
                } else {
                    c + n - cursor
                }),
            forall|d: int|
                0 <= d < c ==> #[trigger] by_child@[d] == quota_of(
                    total as int,
                    child_weights@,
                    cursor as int,
                    d,
                ) && by_child@[d] == 1 + parts[place_of(cursor as int, n as int, d)],
        decreases n - c,
    {
        let place: usize = if c >= cursor {
            c - cursor
        } else {
            n - cursor + c
        };
        assert(place == place_of(cursor as int, n as int, c as int));
        assert(parts[place as int] <= rest);
        by_child.push(shares[place] + 1);
        c += 1;
    }
    proof {
        let plus = Seq::new(n as nat, |p: int| parts[p] + 1);
        let ones = Seq::new(n as nat, |p: int| 1int);
        lemma_sum_add(parts, ones, plus);
        lemma_sum_indicator(ones, n as int);
        assert forall|d: int| 0 <= d < n implies #[trigger] ints(by_child@)[d] == plus[place_of(
            cursor as int,
            n as int,
            d,
        )] by {
            assert(0 <= place_of(cursor as int, n as int, d) < n);
            assert(by_child@[d] == 1 + parts[place_of(cursor as int, n as int, d)]);
        }
        lemma_unrotated_sum(cursor as int, plus, ints(by_child@));
    }
    let next_cursor: usize = match last {
        Some(place) => {
            let child: usize = rotate(cursor, n, place);
            let next: usize = if child + 1 == n {
                0
            } else {
                child + 1
            };
            proof {
                if child + 1 == n {
                    vstd::arithmetic::div_mod::lemma_mod_self_0(n as int);
                } else {
                    vstd::arithmetic::div_mod::lemma_small_mod((child + 1) as nat, n as nat);
                }
                assert(child_at(cursor as int, n as int, place as int) == child);
            }
            next
        },
        None => {
            proof {
                crate::apportion::lemma_leftover(rest as int, scores_view);
            }
            cursor
        },
    };
    WeightedBranchQuotas { by_child, next_cursor }
}

/// The sum of the first elements.
pub open spec fn prefix(s: Seq<int>, k: int) -> int {
    sum(s.take(k))
}

/// How much of a contribution falls to a child when contributions and quotas
/// are laid out side by side, each in its order.
pub open spec fn overlap(contributions: Seq<int>, quotas: Seq<int>, k: int, c: int) -> int {
    let end = if prefix(contributions, k + 1) <= prefix(quotas, c + 1) {
        prefix(contributions, k + 1)
    } else {
        prefix(quotas, c + 1)
    };
    let start = if prefix(contributions, k) >= prefix(quotas, c) {
        prefix(contributions, k)
    } else {
        prefix(quotas, c)
    };
    end - start
}

/// The order of allocations: by contribution, then by child.
pub open spec fn allocation_lt(
    a: BranchContributionAllocation,
    b: BranchContributionAllocation,
) -> bool {
    a.contribution_index < b.contribution_index || (a.contribution_index == b.contribution_index
        && a.child_index < b.child_index)
}

/// Exactly the positive overlaps, in order.
pub open spec fn is_allocation_list(
    contributions: Seq<int>,
    quotas: Seq<int>,
    list: Seq<BranchContributionAllocation>,
) -> bool {
    &&& forall|x: int|
        0 <= x < list.len() ==> {
            &&& (#[trigger] list[x]).contribution_index < contributions.len()
            &&& list[x].child_index < quotas.len()
            &&& list[x].amount > 0
            &&& list[x].amount == overlap(
                contributions,
                quotas,
                list[x].contribution_index as int,
                list[x].child_index as int,
            )
        }
    &&& forall|x: int, y: int|
        0 <= x < y < list.len() ==> allocation_lt(#[trigger] list[x], #[trigger] list[y])
    &&& forall|k: int, c: int|
        0 <= k < contributions.len() && 0 <= c < quotas.len() && #[trigger] overlap(
            contributions,
            quotas,
            k,
            c,
        ) > 0 ==> exists|x: int|
            0 <= x < list.len() && (#[trigger] list[x]).contribution_index == k
                && list[x].child_index == c
}

/// What the list takes from one contribution.
pub open spec fn taken_from(list: Seq<BranchContributionAllocation>, k: int) -> int {
    sum(
        Seq::new(
            list.len(),
            |x: int|
                if list[x].contribution_index == k {
                    list[x].amount as int
                } else {
                    0
                },
        ),
    )
}

/// What the list gives to one child.
pub open spec fn given_to(list: Seq<BranchContributionAllocation>, c: int) -> int {
    sum(
        Seq::new(
            list.len(),
            |x: int|
                if list[x].child_index == c {
                    list[x].amount as int
                } else {
                    0
                },
        ),
    )
}

proof fn lemma_taken_push(
    list: Seq<BranchContributionAllocation>,
    e: BranchContributionAllocation,
    k: int,
)
    ensures
        taken_from(list.push(e), k) == taken_from(list, k) + if e.contribution_index == k {
            e.amount as int
        } else {
            0
        },
        given_to(list.push(e), k) == given_to(list, k) + if e.child_index == k {
            e.amount as int
        } else {
            0
        },
{
    let s = Seq::new(
        list.push(e).len(),
        |x: int|
            if list.push(e)[x].contribution_index == k {
                list.push(e)[x].amount as int
            } else {
                0
            },
    );
    assert(s.drop_last() =~= Seq::new(
        list.len(),
        |x: int|
            if list[x].contribution_index == k {
                list[x].amount as int
            } else {
                0
            },
    ));
    let t = Seq::new(
        list.push(e).len(),
        |x: int|
            if list.push(e)[x].child_index == k {
                list.push(e)[x].amount as int
            } else {
                0
            },
    );
    assert(t.drop_last() =~= Seq::new(
        list.len(),
        |x: int|
            if list[x].child_index == k {
                list[x].amount as int
            } else {
                0
            },
    ));
}

proof fn lemma_prefix_step(s: Seq<int>, k: int)
    requires
        0 <= k < s.len(),
    ensures
        prefix(s, k + 1) == prefix(s, k) + s[k],
{
    assert(s.take(k + 1).drop_last() =~= s.take(k));
}

proof fn lemma_prefix_monotone(s: Seq<int>, j: int, k: int)
    requires
        0 <= j <= k <= s.len(),
        forall|i: int| 0 <= i < s.len() ==> 0 <= #[trigger] s[i],
    ensures
        0 <= prefix(s, j) <= prefix(s, k) <= sum(s),
{
    let t = s.take(k);
    assert forall|i: int| 0 <= i < t.len() implies 0 <= #[trigger] t[i] by {
        assert(0 <= s[i]);
    }
    lemma_sum_bounds(t, j);
    assert(t.take(j) =~= s.take(j));
    lemma_sum_bounds(s, k);
}

/// Preserves input contribution identity while filling weighted child quotas.
///
/// Contributions and children are consumed in their supplied order. Zero
/// contributions are omitted from the sparse result.
pub fn weighted_branch_allocations_rotated(
    contribution_amounts: &[u64],
    child_weights: &[u8],
    start_cursor: usize,
) -> (result: Result<WeightedBranchAllocations, BranchAllocationError>)
    ensures
        match result {
            Ok(r) => {
                let n = child_weights@.len() as int;
                let cursor = start_cursor as int % n;
                let contributions = ints(contribution_amounts@);
                let total = sum(contributions);
                let quotas = Seq::new(
                    n as nat,
                    |c: int| quota_of(total, child_weights@, cursor, c),
                );
                &&& total <= u64::MAX
                &&& n > 0
                &&& forall|i: int| 0 <= i < n ==> (#[trigger] child_weights@[i]) > 0
                &&& is_next_cursor(total, child_weights@, cursor, r.next_cursor as int)
                &&& r.next_cursor < n
                &&& is_allocation_list(contributions, quotas, r.allocations@)
                &&& forall|k: int|
                    0 <= k < contributions.len() ==> #[trigger] taken_from(r.allocations@, k)
                        == contributions[k]
                &&& forall|c: int|
                    0 <= c < n ==> #[trigger] given_to(r.allocations@, c) == quotas[c]
            },
            Err(BranchAllocationError::ArithmeticOverflow) => sum(ints(contribution_amounts@))
                > u64::MAX,
            Err(BranchAllocationError::EmptyChildren) => sum(ints(contribution_amounts@))
                <= u64::MAX && child_weights@.len() == 0,
            Err(BranchAllocationError::ZeroWeight { child_index }) => {
                &&& sum(ints(contribution_amounts@)) <= u64::MAX
                &&& child_index < child_weights@.len()
                &&& child_weights@[child_index as int] == 0
                &&& forall|i: int| 0 <= i < child_index ==> (#[trigger] child_weights@[i]) > 0
            },
            Err(BranchAllocationError::AllocationMismatch) => false,
        },
{
    let total: u64 = match checked_sum(contribution_amounts) {
        Some(total) => total,
        None => {
            return Err(BranchAllocationError::ArithmeticOverflow);
        },
    };
    let quotas = match weighted_branch_quotas_rotated(total, child_weights, start_cursor) {
        Ok(quotas) => quotas,
        Err(e) => {
            return Err(e);
        },
    };
    let ghost n = child_weights@.len() as int;
    let ghost cursor = start_cursor as int % n;
    let ghost q = Seq::new(
        n as nat,
        |c: int| quota_of(total as int, child_weights@, cursor, c),
    );
    assert(ints(quotas.by_child@) =~= q);
    let allocations = fill_quotas(contribution_amounts, quotas.by_child.as_slice());
    Ok(WeightedBranchAllocations { allocations, next_cursor: quotas.next_cursor })
}

/// Where the overlap of a contribution and a child begins.
spec fn overlap_start(a: Seq<int>, q: Seq<int>, k: int, c: int) -> int {
    if prefix(a, k) >= prefix(q, c) {
        prefix(a, k)
    } else {
        prefix(q, c)
    }
}

/// How much of the element that spans from `low` to `low + size` lies before a
/// position.
spec fn covered(low: int, size: int, position: int) -> int {
    if position <= low {
        0
    } else if position >= low + size {
        size
    } else {
        position - low
    }
}

/// The list holds exactly the overlaps that lie before a position, and no
/// overlap straddles it.
#[verifier::opaque]
spec fn laid_out(
    a: Seq<int>,
    q: Seq<int>,
    list: Seq<BranchContributionAllocation>,
    position: int,
) -> bool {
    &&& forall|x: int|
        0 <= x < list.len() ==> {
            let k = (#[trigger] list[x]).contribution_index as int;
            let c = list[x].child_index as int;
            &&& k < a.len()
            &&& c < q.len()
            &&& list[x].amount > 0
            &&& list[x].amount == overlap(a, q, k, c)
            &&& overlap_start(a, q, k, c) + list[x].amount <= position
        }
    &&& forall|x: int, y: int|
        0 <= x < y < list.len() ==> allocation_lt(#[trigger] list[x], #[trigger] list[y])
    &&& forall|k: int, c: int|
        0 <= k < a.len() && 0 <= c < q.len() && #[trigger] overlap(a, q, k, c) > 0
            ==> overlap_start(a, q, k, c) >= position || exists|x: int|
            0 <= x < list.len() && (#[trigger] list[x]).contribution_index == k
                && list[x].child_index == c
    &&& forall|k: int|
        0 <= k < a.len() ==> #[trigger] taken_from(list, k) == covered(
            prefix(a, k),
            a[k],
            position,
        )
    &&& forall|c: int|
        0 <= c < q.len() ==> #[trigger] given_to(list, c) == covered(prefix(q, c), q[c], position)
}

/// Elements are laid out one behind the other.
pub proof fn lemma_prefixes_ordered(s: Seq<int>, i: int, j: int)
    requires
        naturals(s),
        0 <= i < j < s.len(),
    ensures
        prefix(s, i + 1) <= prefix(s, j),
        prefix(s, i + 1) == prefix(s, i) + s[i],
        prefix(s, j + 1) == prefix(s, j) + s[j],
{
    lemma_prefix_step(s, i);
    lemma_prefix_step(s, j);
    lemma_prefix_monotone(s, i + 1, j);
}

/// Adding the overlap at the position moves the position to its end.
proof fn lemma_assign(
    a: Seq<int>,
    q: Seq<int>,
    list: Seq<BranchContributionAllocation>,
    position: int,
    entry: BranchContributionAllocation,
)
    requires
        naturals(a),
        naturals(q),
        laid_out(a, q, list, position),
        entry.contribution_index < a.len(),
        entry.child_index < q.len(),
        entry.amount > 0,
        prefix(a, entry.contribution_index as int) <= position,
        prefix(q, entry.child_index as int) <= position,
        position + entry.amount <= prefix(a, entry.contribution_index + 1),
        position + entry.amount <= prefix(q, entry.child_index + 1),
        position + entry.amount == prefix(a, entry.contribution_index + 1) || position
            + entry.amount == prefix(q, entry.child_index + 1),
    ensures
        laid_out(a, q, list.push(entry), position + entry.amount),
{
    reveal(laid_out);
    let k = entry.contribution_index as int;
    let c = entry.child_index as int;
    let next = position + entry.amount;
    let now = list.push(entry);
    lemma_prefix_step(a, k);
    lemma_prefix_step(q, c);
    assert(overlap(a, q, k, c) > 0);
    // The overlap of this pair begins at the position.
    if overlap_start(a, q, k, c) < position {
        let x = choose|x: int|
            0 <= x < list.len() && (#[trigger] list[x]).contribution_index == k
                && list[x].child_index == c;
        assert(list[x].amount == overlap(a, q, k, c));
        assert(false);
    }
    assert(overlap_start(a, q, k, c) == position);
    assert forall|x: int| 0 <= x < list.len() implies allocation_lt(#[trigger] list[x], entry) by {
        let i = list[x].contribution_index as int;
        let j = list[x].child_index as int;
        if i > k {
            lemma_prefixes_ordered(a, k, i);
        }
        if j > c {
            lemma_prefixes_ordered(q, c, j);
        }
    }
    assert forall|x: int, y: int| 0 <= x < y < now.len() implies allocation_lt(
        #[trigger] now[x],
        #[trigger] now[y],
    ) by {
        if y < list.len() {
            assert(allocation_lt(list[x], list[y]));
        } else {
            assert(allocation_lt(list[x], entry));
        }
    }
    assert forall|x: int| 0 <= x < now.len() implies {
        let i = (#[trigger] now[x]).contribution_index as int;
        let j = now[x].child_index as int;
        &&& i < a.len()
        &&& j < q.len()
        &&& now[x].amount > 0
        &&& now[x].amount == overlap(a, q, i, j)
        &&& overlap_start(a, q, i, j) + now[x].amount <= next
    } by {
        if x < list.len() {
            assert(now[x] == list[x]);
        }
    }
    assert forall|i: int, j: int|
        0 <= i < a.len() && 0 <= j < q.len() && #[trigger] overlap(a, q, i, j)
            > 0 implies overlap_start(a, q, i, j) >= next || exists|x: int|
        0 <= x < now.len() && (#[trigger] now[x]).contribution_index == i && now[x].child_index
            == j by {
        if overlap_start(a, q, i, j) >= position {
            if i < k {
                lemma_prefixes_ordered(a, i, k);
            } else if i > k {
                lemma_prefixes_ordered(a, k, i);
            }
            if j < c {
                lemma_prefixes_ordered(q, j, c);
            } else if j > c {
                lemma_prefixes_ordered(q, c, j);
            }
            if i == k && j == c {
                assert(now[list.len() as int] == entry);
            }
        } else {
            let x = choose|x: int|
                0 <= x < list.len() && (#[trigger] list[x]).contribution_index == i
                    && list[x].child_index == j;
            assert(now[x] == list[x]);
        }
    }
    assert forall|i: int| 0 <= i < a.len() implies #[trigger] taken_from(now, i) == covered(
        prefix(a, i),
        a[i],
        next,
    ) by {
        lemma_taken_push(list, entry, i);
        assert(taken_from(list, i) == covered(prefix(a, i), a[i], position));
        if i < k {
            lemma_prefixes_ordered(a, i, k);
        } else if i > k {
            lemma_prefixes_ordered(a, k, i);
        }
    }
    assert forall|j: int| 0 <= j < q.len() implies #[trigger] given_to(now, j) == covered(
        prefix(q, j),
        q[j],
        next,
    ) by {
        lemma_taken_push(list, entry, j);
        assert(given_to(list, j) == covered(prefix(q, j), q[j], position));
        if j < c {
            lemma_prefixes_ordered(q, j, c);
        } else if j > c {
            lemma_prefixes_ordered(q, c, j);
        }
    }
}

proof fn lemma_nothing_laid_out(a: Seq<int>, q: Seq<int>)
    requires
        naturals(a),
        naturals(q),
    ensures
        laid_out(a, q, Seq::empty(), 0),
{
    reveal(laid_out);
    let list = Seq::<BranchContributionAllocation>::empty();
    assert forall|k: int| 0 <= k < a.len() implies #[trigger] taken_from(list, k) == covered(
        prefix(a, k),
        a[k],
        0,
    ) by {
        lemma_prefix_monotone(a, k, k);
    }
    assert forall|c: int| 0 <= c < q.len() implies #[trigger] given_to(list, c) == covered(
        prefix(q, c),
        q[c],
        0,
    ) by {
        lemma_prefix_monotone(q, c, c);
    }
    assert forall|k: int, c: int|
        0 <= k < a.len() && 0 <= c < q.len() && #[trigger] overlap(a, q, k, c)
            > 0 implies overlap_start(a, q, k, c) >= 0 by {
        lemma_prefix_monotone(a, k, k);
    }
}

/// At the end of both, everything is laid out.
proof fn lemma_all_laid_out(
    a: Seq<int>,
    q: Seq<int>,
    list: Seq<BranchContributionAllocation>,
)
    requires
        naturals(a),
        naturals(q),
        sum(a) == sum(q),
        laid_out(a, q, list, sum(a)),
    ensures
        is_allocation_list(a, q, list),
        forall|k: int| 0 <= k < a.len() ==> #[trigger] taken_from(list, k) == a[k],
        forall|c: int| 0 <= c < q.len() ==> #[trigger] given_to(list, c) == q[c],
{
    reveal(laid_out);
    assert forall|k: int| 0 <= k < a.len() implies #[trigger] taken_from(list, k) == a[k] by {
        lemma_prefix_step(a, k);
        lemma_prefix_monotone(a, k + 1, k + 1);
    }
    assert forall|c: int| 0 <= c < q.len() implies #[trigger] given_to(list, c) == q[c] by {
        lemma_prefix_step(q, c);
        lemma_prefix_monotone(q, c + 1, c + 1);
    }
    assert forall|k: int, c: int|
        0 <= k < a.len() && 0 <= c < q.len() && #[trigger] overlap(a, q, k, c) > 0 implies exists|
        x: int,
    |
        0 <= x < list.len() && (#[trigger] list[x]).contribution_index == k && list[x].child_index
            == c by {
        lemma_prefix_monotone(a, k + 1, k + 1);
    }
}

/// Lays contributions and quotas of the same total out side by side.
fn fill_quotas(contributions: &[u64], quotas: &[u64]) -> (list: Vec<BranchContributionAllocation>)
    requires
        sum(ints(contributions@)) == sum(ints(quotas@)) <= u64::MAX,
    ensures
        is_allocation_list(ints(contributions@), ints(quotas@), list@),
        forall|k: int|
            0 <= k < contributions@.len() ==> #[trigger] taken_from(list@, k) == contributions@[k],
        forall|c: int| 0 <= c < quotas@.len() ==> #[trigger] given_to(list@, c) == quotas@[c],
{
    let ghost a = ints(contributions@);
    let ghost q = ints(quotas@);
    let count: usize = quotas.len();
    let ghost m = count as int;
    let mut list: Vec<BranchContributionAllocation> = Vec::new();
    let mut child: usize = 0;
    // What is left of the quota of `child`.
    let mut room: u64 = if quotas.len() > 0 {
        quotas[0]
    } else {
        0
    };
    let mut k: usize = 0;
    proof {
        assert(a.take(0) =~= Seq::empty());
        assert(q.take(0) =~= Seq::empty());
        lemma_nothing_laid_out(a, q);
    }
    while k < contributions.len()
        invariant
            k <= contributions.len(),
            a == ints(contributions@),
            q == ints(quotas@),
            m == quotas@.len() == count,
            naturals(a),
            naturals(q),
            sum(a) == sum(q) <= u64::MAX,
            child <= m,
            child < m ==> room <= q[child as int] && prefix(a, k as int) == prefix(q, child as int)
                + q[child as int] - room,
            child == m ==> prefix(a, k as int) == sum(q),
            laid_out(a, q, list@, prefix(a, k as int)),
        decreases contributions.len() - k,
    {
        let amount: u64 = contributions[k];
        let mut left: u64 = amount;
        proof {
            lemma_prefix_step(a, k as int);
            lemma_prefix_monotone(a, k + 1, k + 1);
        }
        while left > 0
            invariant
                k < contributions.len(),
                a == ints(contributions@),
                q == ints(quotas@),
                m == quotas@.len() == count,
                naturals(a),
                naturals(q),
                sum(a) == sum(q) <= u64::MAX,
                amount == a[k as int],
                left <= amount,
                prefix(a, k + 1) == prefix(a, k as int) + amount,
                prefix(a, k + 1) <= sum(q),
                child <= m,
                child < m ==> room <= q[child as int] && prefix(a, k as int) + amount - left
                    == prefix(q, child as int) + q[child as int] - room,
                child == m ==> prefix(a, k as int) + amount - left == sum(q),
                laid_out(a, q, list@, prefix(a, k as int) + amount - left),
            decreases left, m - child,
        {
            proof {
                assert(child < m);
                lemma_prefix_step(q, child as int);
            }
            if room == 0 {
                child += 1;
                if child < quotas.len() {
                    room = quotas[child];
                } else {
                    assert(q.take(m) =~= q);
                }
                continue;
            }
            let assigned: u64 = if left <= room {
                left
            } else {
                room
            };
            let entry = BranchContributionAllocation {
                contribution_index: k,
                child_index: child,
                amount: assigned,
            };
            proof {
                lemma_assign(a, q, list@, prefix(a, k as int) + amount - left, entry);
            }
            list.push(entry);
            left = left - assigned;
            room = room - assigned;
        }
        k += 1;
    }
    proof {
        assert(a.take(a.len() as int) =~= a);
        lemma_all_laid_out(a, q, list@);
    }
    list
}

} // verus!
