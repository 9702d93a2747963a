//! Distribution of strength over cells with capacities.
use vstd::prelude::*;
use crate::axials::{ascending, ordered, AxialMap};
use crate::combat::least;
use crate::coord::{axial_lt, Axial};
use crate::map::{Cell, HexMap, PlayerId, Strength};
use crate::order::{
    checked_sum, ints, key_before, lemma_strictly_sorted_unique, lemma_sum_bounds, lemma_sum_le,
    lemma_sum_zeros, stable_order, sum,
};
use crate::waterfill::{
    are_places, fill, indices, lemma_fill, lemma_filter_parts, lemma_filter_places, lemma_scatter,
    naturals, pick, scatter, water_fill, weights_of, write_places,
};

verus! {

pub const UNIFORM_ALLOCATION_WEIGHT: u32 = 10_000;

#[derive(Clone, Copy, Debug, Eq, PartialEq, Structural)]
pub enum DistributionError {
    EmptySelection,
    UnknownCell(Axial),
    NotOwned { coordinate: Axial, owner: PlayerId },
    CurrentStrengthExceedsCapacity { coordinate: Axial, current: Strength, capacity: Strength },
    InfeasibleFrozenStrength { frozen: Strength, goal: Strength },
    ConstraintCellsMismatch,
    InvalidLowerBound { coordinate: Axial, lower_bound: Strength, current: Strength },
    InsufficientTargetCapacity { unassigned: Strength },
    ArithmeticOverflow,
}

#[derive(Debug, Eq, PartialEq)]
pub struct TargetDistribution {
    pub weights: AxialMap<u32>,
    pub targets: AxialMap<Strength>,
    pub assigned: Strength,
    pub unassigned: Strength,
}

impl Clone for TargetDistribution {
    fn clone(&self) -> (copy: TargetDistribution)
        ensures
            copy.weights@ == self.weights@,
            copy.targets@ == self.targets@,
            copy.assigned == self.assigned,
            copy.unassigned == self.unassigned,
    {
        TargetDistribution {
            weights: self.weights.clone(),
            targets: self.targets.clone(),
            assigned: self.assigned,
            unassigned: self.unassigned,
        }
    }
}

/// Dense counterpart to [`TargetDistribution`] for authoritative hot paths
/// that already keep component cells in a stable vector. Every output entry is
/// aligned with the corresponding input coordinate/capacity entry.
#[derive(Clone, Debug, Eq, PartialEq)]
pub struct DenseTargetDistribution {
    pub weights: Vec<u32>,
    pub targets: Vec<Strength>,
    pub assigned: Strength,
    pub unassigned: Strength,
}

/// Whether one index comes before another in the order of the coordinates.
pub open spec fn cell_before(coordinates: Seq<Axial>, i: int, j: int) -> bool {
    axial_lt(coordinates[i], coordinates[j]) || (coordinates[i] == coordinates[j] && i < j)
}

/// The indices in the order of their coordinates.
pub open spec fn is_coordinate_order(coordinates: Seq<Axial>, order: Seq<int>) -> bool {
    &&& forall|a: int, b: int|
        0 <= a < b < order.len() ==> cell_before(
            coordinates,
            #[trigger] order[a],
            #[trigger] order[b],
        )
    &&& forall|i: int| #[trigger] order.contains(i) <==> 0 <= i < coordinates.len()
}

pub open spec fn coordinate_order(coordinates: Seq<Axial>) -> Seq<int> {
    choose|order: Seq<int>| is_coordinate_order(coordinates, order)
}

pub open spec fn zeros(n: nat) -> Seq<int> {
    Seq::new(n, |i: int| 0)
}

/// The targets of a dense distribution; nothing where a share cannot be
/// computed.
pub open spec fn dense_targets(
    coordinates: Seq<Axial>,
    capacities: Seq<int>,
    weights: Seq<int>,
    total: int,
) -> Option<Seq<int>> {
    fill(
        capacities,
        weights,
        coordinate_order(coordinates),
        least(total, sum(capacities)),
        zeros(coordinates.len()),
    )
}

pub proof fn lemma_coordinate_order(coordinates: Seq<Axial>, order: Seq<int>)
    requires
        is_coordinate_order(coordinates, order),
    ensures
        coordinate_order(coordinates) == order,
        are_places(order, coordinates.len() as int),
        forall|f: Seq<int>| f.len() == coordinates.len() ==> sum(#[trigger] pick(f, order)) == sum(f),
{
    let other = coordinate_order(coordinates);
    let lt = |i: int, j: int| cell_before(coordinates, i, j);
    assert forall|i: int| order.to_set().contains(i) <==> other.to_set().contains(i) by {
        assert(order.contains(i) <==> other.contains(i));
    }
    assert(order.to_set() =~= other.to_set());
    lemma_strictly_sorted_unique(order, other, lt);
    assert forall|a: int, b: int|
        0 <= a < order.len() && 0 <= b < order.len() && a != b implies order[a] != order[b] by {
        if a < b {
            assert(cell_before(coordinates, order[a], order[b]));
        } else {
            assert(cell_before(coordinates, order[b], order[a]));
        }
    }
    assert forall|x: int| 0 <= x < order.len() implies 0 <= #[trigger] order[x]
        < coordinates.len() by {
        assert(order.contains(order[x]));
    }
    assert forall|f: Seq<int>| f.len() == coordinates.len() implies sum(#[trigger] pick(f, order))
        == sum(f) by {
        lemma_scatter(zeros(f.len()), order, pick(f, order));
        let s = scatter(zeros(f.len()), order, pick(f, order));
        assert forall|i: int| 0 <= i < f.len() implies s[i] == f[i] by {
            assert(order.contains(i));
            let x = choose|x: int| 0 <= x < order.len() && order[x] == i;
            assert(s[order[x]] == pick(f, order)[x]);
        }
        assert(s =~= f);
        lemma_sum_zeros(zeros(f.len()));
        lemma_sum_zeros(pick(zeros(f.len()), order));
    }
}

fn zero_targets(n: usize) -> (targets: Vec<u64>)
    ensures
        targets@.len() == n,
        ints(targets@) == zeros(n as nat),
{
    let mut targets: Vec<u64> = Vec::new();
    let mut i: usize = 0;
    while i < n
        invariant
            i <= n,
            targets@.len() == i,
            forall|j: int| 0 <= j < i ==> #[trigger] targets@[j] == 0,
        decreases n - i,
    {
        targets.push(0);
        i += 1;
    }
    assert(ints(targets@) =~= zeros(n as nat));
    targets
}

/// The indices of coordinates in the order of the coordinates.
fn order_coordinates(coordinates: &[Axial]) -> (order: Vec<usize>)
    ensures
        is_coordinate_order(coordinates@, indices(order@)),
{
    let mut keys: Vec<(u128, u128)> = Vec::new();
    let mut i: usize = 0;
    while i < coordinates.len()
        invariant
            i <= coordinates.len(),
            keys@.len() == i,
            forall|j: int|
                0 <= j < i ==> (#[trigger] keys@[j]).0 == coordinates@[j].q + 0x8000_0000
                    && keys@[j].1 == coordinates@[j].r + 0x8000_0000,
        decreases coordinates.len() - i,
    {
        let q: i64 = coordinates[i].q as i64 + 0x8000_0000;
        let r: i64 = coordinates[i].r as i64 + 0x8000_0000;
        keys.push((q as u128, r as u128));
        i += 1;
    }
    let order = stable_order(keys.as_slice());
    proof {
        let o = indices(order@);
        assert forall|a: int, b: int| 0 <= a < b < o.len() implies cell_before(
            coordinates@,
            #[trigger] o[a],
            #[trigger] o[b],
        ) by {
            assert(key_before(keys@, order@[a], order@[b]));
        }
        assert forall|i: int| #[trigger] o.contains(i) <==> 0 <= i < coordinates@.len() by {
            if o.contains(i) {
                let a = choose|a: int| 0 <= a < o.len() && o[a] == i;
                assert(order@[a] < keys@.len());
            }
            if 0 <= i < coordinates@.len() {
                assert(order@.contains(i as usize));
                let a = choose|a: int| 0 <= a < order@.len() && order@[a] == i as usize;
                assert(o[a] == i);
            }
        }
    }
    order
}

/// Applies precomputed dense weights with capacity-safe largest-remainder
/// apportionment. Used by explicit FrontRebalance placement.
pub fn redistribution_targets_dense_with_weights(
    coordinates: &[Axial],
    capacities: &[Strength],
    total_strength: Strength,
    weights: Vec<u32>,
) -> (result: Result<DenseTargetDistribution, DistributionError>)
    ensures
        ({
            let n = coordinates@.len();
            let aligned = n == capacities@.len() && n == weights@.len();
            let cap = ints(capacities@);
            let goal = least(total_strength as int, sum(cap));
            let targets = dense_targets(
                coordinates@,
                cap,
                weights_of(weights@),
                total_strength as int,
            );
            match result {
                Ok(d) => {
                    &&& n > 0
                    &&& aligned
                    &&& sum(cap) <= u64::MAX
                    &&& targets == Some(ints(d.targets@))
                    &&& d.targets@.len() == n
                    &&& d.weights@ == weights@
                    &&& d.assigned == sum(ints(d.targets@))
                    &&& d.unassigned == total_strength - d.assigned
                    &&& forall|i: int| 0 <= i < n ==> (#[trigger] d.targets@[i]) <= capacities@[i]
                    &&& d.assigned <= goal
                    &&& (forall|i: int| 0 <= i < n ==> (#[trigger] weights@[i]) > 0) ==> d.assigned
                        == goal
                },
                Err(DistributionError::EmptySelection) => n == 0,
                Err(DistributionError::ConstraintCellsMismatch) => n > 0 && !aligned,
                Err(DistributionError::ArithmeticOverflow) => n > 0 && aligned && (sum(cap)
                    > u64::MAX || targets is None),
                Err(_) => false,
            }
        }),
{
    if coordinates.len() == 0 {
        return Err(DistributionError::EmptySelection);
    }
    if coordinates.len() != capacities.len() || coordinates.len() != weights.len() {
        return Err(DistributionError::ConstraintCellsMismatch);
    }
    let ghost cap = ints(capacities@);
    let ghost w = weights_of(weights@);
    let capacity_total: u64 = match checked_sum(capacities) {
        Some(total) => total,
        None => {
            return Err(DistributionError::ArithmeticOverflow);
        },
    };
    let goal: u64 = if total_strength <= capacity_total {
        total_strength
    } else {
        capacity_total
    };
    let order = order_coordinates(coordinates);
    let ghost live = indices(order@);
    proof {
        lemma_coordinate_order(coordinates@, live);
        assert(sum(pick(cap, live)) == sum(cap));
        let start = zeros(coordinates@.len());
        assert forall|i: int| 0 <= i < cap.len() implies 0 <= #[trigger] start[i] <= cap[i] by {}
        assert forall|x: int| 0 <= x < live.len() implies start[#[trigger] live[x]] == 0 by {
            assert(0 <= live[x] < coordinates@.len());
        }
        lemma_fill(cap, w, live, goal as int, start);
        lemma_sum_zeros(start);
    }
    let start = zero_targets(coordinates.len());
    let targets = match water_fill(capacities, weights.as_slice(), order, goal, start) {
        Some(targets) => targets,
        None => {
            return Err(DistributionError::ArithmeticOverflow);
        },
    };
    proof {
        let t = ints(targets@);
        assert forall|i: int| 0 <= i < targets@.len() implies (#[trigger] targets@[i])
            <= capacities@[i] by {
            assert(0 <= t[i] <= cap[i]);
        }
        if forall|i: int| 0 <= i < weights@.len() ==> (#[trigger] weights@[i]) > 0 {
            assert forall|x: int| 0 <= x < live.len() implies w[#[trigger] live[x]] > 0 by {
                assert(0 <= live[x] < coordinates@.len());
                assert(weights@[live[x]] > 0);
            }
        }
    }
    let assigned: u64 = match checked_sum(targets.as_slice()) {
        Some(total) => total,
        None => {
            return Err(DistributionError::ArithmeticOverflow);
        },
    };
    Ok(
        DenseTargetDistribution {
            weights,
            targets,
            assigned,
            unassigned: total_strength - assigned,
        },
    )
}

/// Whether a cell gets less than its lower bound.
pub open spec fn falls_short(targets: Seq<int>, low: Seq<int>) -> spec_fn(int) -> bool {
    |i: int| targets[i] < low[i]
}

/// Whether a cell gets at least its lower bound.
pub open spec fn holds_up(targets: Seq<int>, low: Seq<int>) -> spec_fn(int) -> bool {
    |i: int| targets[i] >= low[i]
}

/// Distributes what remains over the active cells. Cells whose share falls
/// below their lower bound get the bound instead and leave; the others share
/// what is left.
pub open spec fn constrain(
    cap: Seq<int>,
    weight: Seq<int>,
    low: Seq<int>,
    active: Seq<int>,
    remaining: int,
    targets: Seq<int>,
) -> Option<Seq<int>>
    decreases active.len(),
{
    if active.len() == 0 {
        Some(targets)
    } else {
        match fill(cap, weight, active, remaining, targets) {
            None => None,
            Some(t) => {
                let short = active.filter(falls_short(t, low));
                let rest = active.filter(holds_up(t, low));
                proof {
                    lemma_filter_parts(active, falls_short(t, low), holds_up(t, low));
                }
                if short.len() == 0 {
                    Some(t)
                } else {
                    constrain(
                        cap,
                        weight,
                        low,
                        rest,
                        remaining - sum(pick(low, short)),
                        scatter(targets, short, pick(low, short)),
                    )
                }
            },
        }
    }
}

pub open spec fn all_places(n: nat) -> Seq<int> {
    Seq::new(n, |i: int| i)
}

/// The targets of a distribution with lower bounds, or why there are none.
pub open spec fn constrained(
    cap: Seq<int>,
    weight: Seq<int>,
    low: Seq<int>,
    total: int,
) -> Result<Seq<int>, DistributionError> {
    let goal = least(total, sum(cap));
    if sum(cap) > u64::MAX || sum(low) > u64::MAX {
        Err(DistributionError::ArithmeticOverflow)
    } else if sum(low) > goal {
        Err(
            DistributionError::InfeasibleFrozenStrength {
                frozen: sum(low) as u64,
                goal: goal as u64,
            },
        )
    } else {
        match constrain(cap, weight, low, all_places(cap.len()), goal, zeros(cap.len())) {
            Some(t) => Ok(t),
            None => Err(DistributionError::ArithmeticOverflow),
        }
    }
}

/// Changing a sequence at some places changes its sum by what changes there.
proof fn lemma_changed_sum(s: Seq<int>, t: Seq<int>, places: Seq<int>)
    requires
        s.len() == t.len(),
        are_places(places, s.len() as int),
        forall|i: int| 0 <= i < s.len() && !places.contains(i) ==> #[trigger] t[i] == s[i],
    ensures
        sum(t) == sum(s) - sum(pick(s, places)) + sum(pick(t, places)),
{
    lemma_scatter(s, places, pick(t, places));
    let u = scatter(s, places, pick(t, places));
    assert forall|i: int| 0 <= i < s.len() implies u[i] == t[i] by {
        if places.contains(i) {
            let x = choose|x: int| 0 <= x < places.len() && places[x] == i;
            assert(u[places[x]] == pick(t, places)[x]);
        } else {
            assert(u[i] == s[i]);
            assert(t[i] == s[i]);
        }
    }
    assert(u =~= t);
}

/// What holds of a distribution with lower bounds.
pub proof fn lemma_constrain(
    cap: Seq<int>,
    weight: Seq<int>,
    low: Seq<int>,
    active: Seq<int>,
    remaining: int,
    targets: Seq<int>,
)
    requires
        naturals(cap),
        naturals(weight),
        naturals(low),
        weight.len() == cap.len(),
        low.len() == cap.len(),
        targets.len() == cap.len(),
        are_places(active, cap.len() as int),
        forall|i: int| 0 <= i < cap.len() ==> (#[trigger] low[i]) <= cap[i],
        remaining >= sum(pick(low, active)),
        forall|i: int| 0 <= i < cap.len() ==> 0 <= #[trigger] targets[i] <= cap[i],
        forall|x: int| 0 <= x < active.len() ==> targets[#[trigger] active[x]] == 0,
    ensures
        constrain(cap, weight, low, active, remaining, targets) matches Some(t) ==> {
            &&& t.len() == cap.len()
            &&& forall|i: int| 0 <= i < cap.len() ==> 0 <= #[trigger] t[i] <= cap[i]
            &&& forall|i: int|
                0 <= i < cap.len() && !active.contains(i) ==> #[trigger] t[i] == targets[i]
            &&& forall|x: int|
                0 <= x < active.len() ==> t[#[trigger] active[x]] >= low[active[x]]
            &&& sum(targets) <= sum(t) <= sum(targets) + remaining
            &&& remaining <= sum(pick(cap, active)) && (forall|x: int|
                0 <= x < active.len() ==> weight[#[trigger] active[x]] > 0) ==> sum(t) == sum(
                targets,
            ) + remaining
        },
    decreases active.len(),
{
    let n = cap.len() as int;
    let lows = pick(low, active);
    assert forall|x: int| 0 <= x < lows.len() implies 0 <= #[trigger] lows[x] by {
        assert(0 <= active[x] < n);
        assert(0 <= low[active[x]]);
    }
    lemma_sum_bounds(lows, 0);
    if active.len() == 0 {
        assert(pick(cap, active) =~= Seq::empty());
    } else {
        lemma_fill(cap, weight, active, remaining, targets);
        match fill(cap, weight, active, remaining, targets) {
            None => {},
            Some(f) => {
                let p = falls_short(f, low);
                let q = holds_up(f, low);
                let short = active.filter(p);
                let rest = active.filter(q);
                lemma_filter_parts(active, p, q);
                lemma_filter_places(active, p, n);
                lemma_filter_places(active, q, n);
                if short.len() == 0 {
                    assert forall|x: int| 0 <= x < active.len() implies f[#[trigger] active[x]]
                        >= low[active[x]] by {
                        if p(active[x]) {
                            assert(active.contains(active[x]));
                            assert(short.contains(active[x]));
                        }
                    }
                } else {
                    let values = pick(low, short);
                    let next = scatter(targets, short, values);
                    let left = remaining - sum(values);
                    lemma_scatter(targets, short, values);
                    assert(sum(pick(low, active)) == sum(pick(low, short)) + sum(pick(low, rest)));
                    assert forall|i: int| 0 <= i < n implies 0 <= #[trigger] next[i] <= cap[i] by {
                        assert(0 <= targets[i] <= cap[i]);
                        assert(0 <= low[i] <= cap[i]);
                        if short.contains(i) {
                            let x = choose|x: int| 0 <= x < short.len() && short[x] == i;
                            assert(next[short[x]] == values[x]);
                        }
                    }
                    assert forall|x: int| 0 <= x < rest.len() implies next[#[trigger] rest[x]]
                        == 0 by {
                        let i = rest[x];
                        assert(rest.contains(i));
                        assert(active.contains(i));
                        assert(!short.contains(i));
                        let y = choose|y: int| 0 <= y < active.len() && active[y] == i;
                        assert(targets[active[y]] == 0);
                    }
                    let gone = pick(targets, short);
                    assert forall|x: int| 0 <= x < gone.len() implies #[trigger] gone[x] == 0 by {
                        assert(short.contains(short[x]));
                        let y = choose|y: int| 0 <= y < active.len() && active[y] == short[x];
                        assert(targets[active[y]] == 0);
                    }
                    lemma_sum_zeros(gone);
                    assert forall|x: int| 0 <= x < values.len() implies 0 <= #[trigger] values[x] by {
                        assert(0 <= short[x] < n);
                        assert(0 <= low[short[x]]);
                    }
                    lemma_sum_bounds(values, 0);
                    lemma_constrain(cap, weight, low, rest, left, next);
                    if remaining <= sum(pick(cap, active)) && forall|x: int|
                        0 <= x < active.len() ==> weight[#[trigger] active[x]] > 0 {
                        // What the fill gave the short cells is below their bounds, so the
                        // others can hold the rest.
                        lemma_changed_sum(targets, f, active);
                        let none = pick(targets, active);
                        assert forall|x: int| 0 <= x < none.len() implies #[trigger] none[x]
                            == 0 by {
                            assert(targets[active[x]] == 0);
                        }
                        lemma_sum_zeros(none);
                        assert(sum(pick(f, active)) == sum(pick(f, short)) + sum(pick(f, rest)));
                        let fs = pick(f, short);
                        assert forall|x: int| 0 <= x < fs.len() implies #[trigger] fs[x]
                            <= values[x] by {
                            assert(p(short[x]));
                        }
                        lemma_sum_le(fs, values);
                        let fr = pick(f, rest);
                        let cr = pick(cap, rest);
                        assert forall|x: int| 0 <= x < fr.len() implies #[trigger] fr[x]
                            <= cr[x] by {
                            assert(0 <= rest[x] < n);
                            assert(0 <= f[rest[x]] <= cap[rest[x]]);
                        }
                        lemma_sum_le(fr, cr);
                        assert forall|x: int| 0 <= x < rest.len() implies weight[#[trigger] rest[x]]
                            > 0 by {
                            assert(rest.contains(rest[x]));
                            let y = choose|y: int| 0 <= y < active.len() && active[y] == rest[x];
                            assert(weight[active[y]] > 0);
                        }
                    }
                    match constrain(cap, weight, low, rest, left, next) {
                        Some(t) => {
                            assert forall|i: int|
                                0 <= i < n && !active.contains(i) implies #[trigger] t[i]
                                == targets[i] by {
                                assert(!rest.contains(i));
                                assert(!short.contains(i));
                                assert(next[i] == targets[i]);
                            }
                            assert forall|x: int|
                                0 <= x < active.len() implies t[#[trigger] active[x]]
                                >= low[active[x]] by {
                                let i = active[x];
                                assert(active.contains(i));
                                if rest.contains(i) {
                                    let y = choose|y: int| 0 <= y < rest.len() && rest[y] == i;
                                    assert(t[rest[y]] >= low[rest[y]]);
                                } else {
                                    assert(short.contains(i));
                                    let y = choose|y: int| 0 <= y < short.len() && short[y] == i;
                                    assert(next[short[y]] == values[y]);
                                    assert(t[i] == next[i]);
                                }
                            }
                        },
                        None => {},
                    }
                }
            },
        }
    }
}

pub proof fn lemma_all_places(f: Seq<int>)
    ensures
        are_places(all_places(f.len()), f.len() as int),
        pick(f, all_places(f.len())) == f,
{
    assert(pick(f, all_places(f.len())) =~= f);
}

/// Picks the elements at the listed places.
fn pick_places(values: &[u64], places: &Vec<usize>) -> (picked: Vec<u64>)
    requires
        are_places(indices(places@), values@.len() as int),
    ensures
        ints(picked@) == pick(ints(values@), indices(places@)),
        picked@.len() == places@.len(),
{
    let mut picked: Vec<u64> = Vec::new();
    let mut x: usize = 0;
    while x < places.len()
        invariant
            x <= places.len(),
            are_places(indices(places@), values@.len() as int),
            picked@.len() == x,
            forall|y: int| 0 <= y < x ==> #[trigger] picked@[y] == values@[places@[y] as int],
        decreases places.len() - x,
    {
        assert(0 <= indices(places@)[x as int] < values@.len());
        picked.push(values[places[x]]);
        x += 1;
    }
    assert(ints(picked@) =~= pick(ints(values@), indices(places@)));
    picked
}

/// Copies a vector of numbers.
fn copy_numbers(values: &Vec<u64>) -> (copy: Vec<u64>)
    ensures
        copy@ == values@,
{
    let mut copy: Vec<u64> = Vec::new();
    let mut i: usize = 0;
    while i < values.len()
        invariant
            i <= values.len(),
            copy@ == values@.take(i as int),
        decreases values.len() - i,
    {
        copy.push(values[i]);
        assert(values@.take(i + 1) =~= values@.take(i as int).push(values@[i as int]));
        i += 1;
    }
    assert(values@.take(i as int) =~= values@);
    copy
}

fn copy_places(values: &Vec<usize>) -> (copy: Vec<usize>)
    ensures
        copy@ == values@,
{
    let mut copy: Vec<usize> = Vec::new();
    let mut i: usize = 0;
    while i < values.len()
        invariant
            i <= values.len(),
            copy@ == values@.take(i as int),
        decreases values.len() - i,
    {
        copy.push(values[i]);
        assert(values@.take(i + 1) =~= values@.take(i as int).push(values@[i as int]));
        i += 1;
    }
    assert(values@.take(i as int) =~= values@);
    copy
}

/// The active cells in two parts: those that fall short of their lower bounds,
/// and the others.
fn split_short(targets: &Vec<u64>, lows: &[u64], active: &Vec<usize>) -> (parts: (
    Vec<usize>,
    Vec<usize>,
))
    requires
        targets@.len() == lows@.len(),
        are_places(indices(active@), lows@.len() as int),
    ensures
        indices(parts.0@) == indices(active@).filter(falls_short(ints(targets@), ints(lows@))),
        indices(parts.1@) == indices(active@).filter(holds_up(ints(targets@), ints(lows@))),
{
    let ghost l = indices(active@);
    let ghost p = falls_short(ints(targets@), ints(lows@));
    let ghost q = holds_up(ints(targets@), ints(lows@));
    let mut short: Vec<usize> = Vec::new();
    let mut rest: Vec<usize> = Vec::new();
    let mut x: usize = 0;
    proof {
        reveal(Seq::filter);
        assert(l.take(0) =~= Seq::empty());
        assert(indices(short@) =~= Seq::<int>::empty().filter(p));
        assert(indices(rest@) =~= Seq::<int>::empty().filter(q));
    }
    while x < active.len()
        invariant
            x <= active.len(),
            targets@.len() == lows@.len(),
            l == indices(active@),
            are_places(l, lows@.len() as int),
            p == falls_short(ints(targets@), ints(lows@)),
            q == holds_up(ints(targets@), ints(lows@)),
            indices(short@) == l.take(x as int).filter(p),
            indices(rest@) == l.take(x as int).filter(q),
        decreases active.len() - x,
    {
        let i: usize = active[x];
        assert(0 <= l[x as int] < lows@.len());
        let ghost short_was = short@;
        let ghost rest_was = rest@;
        let below = targets[i] < lows[i];
        assert(below == p(i as int));
        assert(!below == q(i as int));
        if below {
            short.push(i);
        } else {
            rest.push(i);
        }
        proof {
            reveal(Seq::filter);
            assert(l.take(x + 1).drop_last() =~= l.take(x as int));
            assert(l.take(x + 1).last() == i);
            if below {
                assert(indices(short@) =~= indices(short_was).push(i as int));
            } else {
                assert(indices(rest@) =~= indices(rest_was).push(i as int));
            }
        }
        x += 1;
    }
    assert(l.take(x as int) =~= l);
    (short, rest)
}

/// Distributes an amount over cells with capacities and lower bounds.
fn constrained_targets(caps: &[u64], weights: &[u32], lows: &[u64], total: u64) -> (result: Result<
    Vec<u64>,
    DistributionError,
>)
    requires
        caps@.len() == weights@.len() == lows@.len(),
        forall|i: int| 0 <= i < caps@.len() ==> (#[trigger] lows@[i]) <= caps@[i],
    ensures
        match result {
            Ok(t) => {
                let cap = ints(caps@);
                let goal = least(total as int, sum(cap));
                &&& constrained(cap, weights_of(weights@), ints(lows@), total as int) == Ok::<
                    Seq<int>,
                    DistributionError,
                >(ints(t@))
                &&& t@.len() == caps@.len()
                &&& forall|i: int|
                    0 <= i < caps@.len() ==> lows@[i] <= (#[trigger] t@[i]) <= caps@[i]
                &&& sum(ints(t@)) <= goal
                &&& (forall|i: int| 0 <= i < caps@.len() ==> (#[trigger] weights@[i]) > 0) ==> sum(
                    ints(t@),
                ) == goal
            },
            Err(e) => constrained(
                ints(caps@),
                weights_of(weights@),
                ints(lows@),
                total as int,
            ) == Err::<Seq<int>, DistributionError>(e),
        },
{
    let ghost cap = ints(caps@);
    let ghost w = weights_of(weights@);
    let ghost low = ints(lows@);
    let n: usize = caps.len();
    let capacity_total: u64 = match checked_sum(caps) {
        Some(sum) => sum,
        None => {
            return Err(DistributionError::ArithmeticOverflow);
        },
    };
    let frozen: u64 = match checked_sum(lows) {
        Some(sum) => sum,
        None => {
            return Err(DistributionError::ArithmeticOverflow);
        },
    };
    let goal: u64 = if total <= capacity_total {
        total
    } else {
        capacity_total
    };
    if frozen > goal {
        return Err(DistributionError::InfeasibleFrozenStrength { frozen, goal });
    }
    let mut active: Vec<usize> = Vec::new();
    let mut k: usize = 0;
    while k < n
        invariant
            k <= n,
            active@.len() == k,
            forall|j: int| 0 <= j < k ==> #[trigger] active@[j] == j,
        decreases n - k,
    {
        active.push(k);
        k += 1;
    }
    let mut targets = zero_targets(n);
    let mut remaining: u64 = goal;
    let ghost whole = constrain(cap, w, low, all_places(cap.len()), goal as int, zeros(cap.len()));
    proof {
        assert(indices(active@) =~= all_places(cap.len()));
        lemma_all_places(cap);
        lemma_all_places(low);
        let start = zeros(cap.len());
        assert forall|i: int| 0 <= i < cap.len() implies (#[trigger] low[i]) <= cap[i] by {
            assert(lows@[i] <= caps@[i]);
        }
        lemma_constrain(cap, w, low, all_places(cap.len()), goal as int, start);
        lemma_sum_zeros(start);
        if forall|i: int| 0 <= i < caps@.len() ==> (#[trigger] weights@[i]) > 0 {
            assert forall|x: int| 0 <= x < all_places(cap.len()).len() implies w[
                #[trigger] all_places(cap.len())[x]
            ] > 0 by {
                assert(weights@[x] > 0);
            }
        }
        match whole {
            Some(t) => {
                assert forall|i: int| 0 <= i < cap.len() implies low[i] <= #[trigger] t[i]
                    <= cap[i] by {
                    assert(all_places(cap.len())[i] == i);
                }
            },
            None => {},
        }
    }
    loop
        invariant
            n == caps@.len() == weights@.len() == lows@.len() == targets@.len(),
            cap == ints(caps@),
            w == weights_of(weights@),
            low == ints(lows@),
            are_places(indices(active@), n as int),
            sum(cap) <= u64::MAX,
            goal == least(total as int, sum(cap)),
            sum(low) <= goal,
            remaining >= sum(pick(low, indices(active@))),
            whole == constrain(cap, w, low, indices(active@), remaining as int, ints(targets@)),
            constrained(cap, w, low, total as int) == (match whole {
                Some(t) => Ok::<Seq<int>, DistributionError>(t),
                None => Err(DistributionError::ArithmeticOverflow),
            }),
            whole matches Some(t) ==> {
                &&& forall|i: int| 0 <= i < n ==> low[i] <= #[trigger] t[i] <= cap[i]
                &&& sum(t) <= goal
                &&& (forall|i: int| 0 <= i < n ==> (#[trigger] weights@[i]) > 0) ==> sum(t) == goal
            },
        decreases active@.len(),
    {
        let ghost l = indices(active@);
        if active.len() == 0 {
            proof {
                assert(l.len() == 0);
                assert forall|i: int| 0 <= i < n implies lows@[i] <= (#[trigger] targets@[i])
                    <= caps@[i] by {
                    assert(low[i] <= ints(targets@)[i] <= cap[i]);
                }
            }
            return Ok(targets);
        }
        proof {
            lemma_pick_within(cap, l);
        }
        let provisional = match water_fill(
            caps,
            weights,
            copy_places(&active),
            remaining,
            copy_numbers(&targets),
        ) {
            Some(provisional) => provisional,
            None => {
                return Err(DistributionError::ArithmeticOverflow);
            },
        };
        let ghost t = ints(provisional@);
        let (short, rest) = split_short(&provisional, lows, &active);
        let ghost p = falls_short(t, low);
        let ghost q = holds_up(t, low);
        proof {
            lemma_filter_parts(l, p, q);
            lemma_filter_places(l, p, n as int);
            lemma_filter_places(l, q, n as int);
            assert(sum(pick(low, l)) == sum(pick(low, l.filter(p))) + sum(pick(low, l.filter(q))));
            assert(indices(short@).len() == short@.len());
            assert(indices(rest@).len() == rest@.len());
            assert(l.len() == active@.len());
        }
        if short.len() == 0 {
            proof {
                assert forall|i: int| 0 <= i < n implies lows@[i] <= (#[trigger] provisional@[i])
                    <= caps@[i] by {
                    assert(low[i] <= t[i] <= cap[i]);
                }
            }
            return Ok(provisional);
        }
        let bounds = pick_places(lows, &short);
        proof {
            lemma_pick_within(low, indices(short@));
            lemma_pick_within(low, indices(rest@));
        }
        let used: u64 = match checked_sum(bounds.as_slice()) {
            Some(used) => used,
            None => {
                assert(false);
                0
            },
        };
        write_places(&mut targets, &short, &bounds);
        remaining = remaining - used;
        active = rest;
    }
}

/// A part of a sequence of natural numbers adds up to no more than the whole.
pub proof fn lemma_pick_within(s: Seq<int>, places: Seq<int>)
    requires
        naturals(s),
        are_places(places, s.len() as int),
    ensures
        0 <= sum(pick(s, places)) <= sum(s),
{
    let part = scatter(zeros(s.len()), places, pick(s, places));
    lemma_scatter(zeros(s.len()), places, pick(s, places));
    lemma_sum_zeros(zeros(s.len()));
    lemma_sum_zeros(pick(zeros(s.len()), places));
    assert forall|i: int| 0 <= i < s.len() implies #[trigger] part[i] <= s[i] by {
        assert(0 <= s[i]);
        if places.contains(i) {
            let x = choose|x: int| 0 <= x < places.len() && places[x] == i;
            assert(part[places[x]] == pick(s, places)[x]);
        }
    }
    lemma_sum_le(part, s);
    let p = pick(s, places);
    assert forall|x: int| 0 <= x < p.len() implies 0 <= #[trigger] p[x] by {
        assert(0 <= places[x] < s.len());
        assert(0 <= s[places[x]]);
    }
    lemma_sum_bounds(p, 0);
}

/// Whether a cell belongs to the preferred footprint.
pub open spec fn is_preferred(weight: Seq<int>) -> spec_fn(int) -> bool {
    |i: int| weight[i] > 0
}

/// Whether a cell only stores overflow.
pub open spec fn is_fallback(weight: Seq<int>) -> spec_fn(int) -> bool {
    |i: int| weight[i] <= 0
}

pub open spec fn preferred_places(weight: Seq<int>) -> Seq<int> {
    all_places(weight.len()).filter(is_preferred(weight))
}

pub open spec fn fallback_places(weight: Seq<int>) -> Seq<int> {
    all_places(weight.len()).filter(is_fallback(weight))
}

/// What a fallback cell may keep at most: what it holds, within its capacity.
pub open spec fn keepable(cap: Seq<int>, current: Seq<int>) -> Seq<int> {
    Seq::new(cap.len(), |i: int| least(cap[i], current[i]))
}

pub open spec fn uniform(n: nat) -> Seq<int> {
    Seq::new(n, |i: int| UNIFORM_ALLOCATION_WEIGHT as int)
}

/// What the preferred cells are to hold: everything but the fallback bounds,
/// within their capacity.
pub open spec fn preferred_goal(
    cap: Seq<int>,
    weight: Seq<int>,
    low: Seq<int>,
    total: int,
) -> int {
    least(
        total - sum(pick(low, fallback_places(weight))),
        sum(pick(cap, preferred_places(weight))),
    )
}

/// The targets of the preferred cells, or why there are none.
pub open spec fn preferred_targets(
    cap: Seq<int>,
    weight: Seq<int>,
    low: Seq<int>,
    total: int,
) -> Result<Seq<int>, DistributionError> {
    let p = preferred_places(weight);
    constrained(
        pick(cap, p),
        pick(weight, p),
        pick(low, p),
        preferred_goal(cap, weight, low, total),
    )
}

/// The targets of the fallback cells, which share what is left.
pub open spec fn fallback_targets(
    cap: Seq<int>,
    weight: Seq<int>,
    low: Seq<int>,
    current: Seq<int>,
    left: int,
) -> Result<Seq<int>, DistributionError> {
    let f = fallback_places(weight);
    constrained(pick(keepable(cap, current), f), uniform(f.len()), pick(low, f), left)
}

/// The targets of all cells, or why there are none: the preferred cells are
/// filled first, the fallback cells keep the rest.
pub open spec fn shaped_targets(
    cap: Seq<int>,
    weight: Seq<int>,
    low: Seq<int>,
    current: Seq<int>,
    total: int,
) -> Result<Seq<int>, DistributionError> {
    let p = preferred_places(weight);
    let f = fallback_places(weight);
    if sum(low) > u64::MAX || sum(pick(cap, p)) > u64::MAX {
        Err(DistributionError::ArithmeticOverflow)
    } else if total < sum(pick(low, f)) {
        Err(
            DistributionError::InfeasibleFrozenStrength {
                frozen: sum(low) as u64,
                goal: total as u64,
            },
        )
    } else {
        match preferred_targets(cap, weight, low, total) {
            Err(e) => Err(e),
            Ok(tp) => match fallback_targets(cap, weight, low, current, total - sum(tp)) {
                Err(e) => Err(e),
                Ok(tf) => if sum(tp) + sum(tf) < total {
                    Err(
                        DistributionError::InsufficientTargetCapacity {
                            unassigned: (total - sum(tp) - sum(tf)) as u64,
                        },
                    )
                } else {
                    Ok(scatter(scatter(zeros(cap.len()), p, tp), f, tf))
                },
            },
        }
    }
}

/// What is wrong with a constrained cell, if anything.
pub open spec fn constraint_fault(
    cells: Map<Axial, Cell>,
    owner: PlayerId,
    lower_bound: u64,
    c: Axial,
) -> Option<DistributionError> {
    if !cells.contains_key(c) {
        Some(DistributionError::UnknownCell(c))
    } else if cells[c].owner != Some(owner) {
        Some(DistributionError::NotOwned { coordinate: c, owner })
    } else if cells[c].forces.infantry > cells[c].military_capacity {
        Some(
            DistributionError::CurrentStrengthExceedsCapacity {
                coordinate: c,
                current: cells[c].forces.infantry,
                capacity: cells[c].military_capacity,
            },
        )
    } else if lower_bound > cells[c].forces.infantry {
        Some(
            DistributionError::InvalidLowerBound {
                coordinate: c,
                lower_bound,
                current: cells[c].forces.infantry,
            },
        )
    } else {
        None
    }
}

/// Whether constraints are rejected with an error: the first fault counts.
pub open spec fn rejects(
    cells: Map<Axial, Cell>,
    owner: PlayerId,
    weights: Map<Axial, u32>,
    lower_bounds: Map<Axial, u64>,
    e: DistributionError,
) -> bool {
    let keys = ordered(weights.dom());
    if weights.dom() == Set::<Axial>::empty() {
        e == DistributionError::EmptySelection
    } else if weights.dom() != lower_bounds.dom() {
        e == DistributionError::ConstraintCellsMismatch
    } else {
        exists|i: int| #[trigger]
            first_constraint_fault(cells, owner, keys, lower_bounds, i) && constraint_fault(
                cells,
                owner,
                lower_bounds[keys[i]],
                keys[i],
            ) == Some(e)
    }
}

/// Whether the cell at a place is the first with a fault.
pub open spec fn first_constraint_fault(
    cells: Map<Axial, Cell>,
    owner: PlayerId,
    keys: Seq<Axial>,
    lower_bounds: Map<Axial, u64>,
    i: int,
) -> bool {
    &&& 0 <= i < keys.len()
    &&& constraint_fault(cells, owner, lower_bounds[keys[i]], keys[i]) is Some
    &&& forall|j: int|
        0 <= j < i ==> constraint_fault(
            cells,
            owner,
            lower_bounds[#[trigger] keys[j]],
            keys[j],
        ) is None
}

/// Whether constraints can be worked with.
pub open spec fn accepts(
    cells: Map<Axial, Cell>,
    owner: PlayerId,
    weights: Map<Axial, u32>,
    lower_bounds: Map<Axial, u64>,
) -> bool {
    &&& weights.dom() != Set::<Axial>::empty()
    &&& weights.dom() == lower_bounds.dom()
    &&& forall|c: Axial| #[trigger]
        weights.contains_key(c) ==> constraint_fault(cells, owner, lower_bounds[c], c) is None
}

/// The capacities of listed cells.
pub open spec fn capacities_at(cells: Map<Axial, Cell>, keys: Seq<Axial>) -> Seq<int> {
    Seq::new(keys.len(), |i: int| cells[keys[i]].military_capacity as int)
}

/// The forces on listed cells.
pub open spec fn forces_at(cells: Map<Axial, Cell>, keys: Seq<Axial>) -> Seq<int> {
    Seq::new(keys.len(), |i: int| cells[keys[i]].forces.infantry as int)
}

pub open spec fn weights_at(weights: Map<Axial, u32>, keys: Seq<Axial>) -> Seq<int> {
    Seq::new(keys.len(), |i: int| weights[keys[i]] as int)
}

pub open spec fn bounds_at(bounds: Map<Axial, u64>, keys: Seq<Axial>) -> Seq<int> {
    Seq::new(keys.len(), |i: int| bounds[keys[i]] as int)
}

/// What the rules prescribe for a selection.
pub open spec fn prescribed(
    cells: Map<Axial, Cell>,
    weights: Map<Axial, u32>,
    lower_bounds: Map<Axial, u64>,
    total: int,
) -> Result<Seq<int>, DistributionError> {
    let keys = ordered(weights.dom());
    shaped_targets(
        capacities_at(cells, keys),
        weights_at(weights, keys),
        bounds_at(lower_bounds, keys),
        forces_at(cells, keys),
        total,
    )
}

/// The data of a selection, listed in the order of its coordinates.
struct Listing {
    keys: Vec<Axial>,
    caps: Vec<u64>,
    weights: Vec<u32>,
    lows: Vec<u64>,
    current: Vec<u64>,
}

spec fn listing_matches(
    cells: Map<Axial, Cell>,
    weights: Map<Axial, u32>,
    lower_bounds: Map<Axial, u64>,
    l: Listing,
) -> bool {
    let keys = ordered(weights.dom());
    let n = keys.len();
    &&& l.keys@ == keys
    &&& ascending(keys)
    &&& keys.to_set() == weights.dom()
    &&& l.caps@.len() == n
    &&& l.weights@.len() == n
    &&& l.lows@.len() == n
    &&& l.current@.len() == n
    &&& ints(l.caps@) == capacities_at(cells, keys)
    &&& weights_of(l.weights@) == weights_at(weights, keys)
    &&& ints(l.lows@) == bounds_at(lower_bounds, keys)
    &&& ints(l.current@) == forces_at(cells, keys)
    &&& forall|i: int|
        0 <= i < n ==> l.lows@[i] <= (#[trigger] l.current@[i]) <= l.caps@[i]
}

/// Lists a selection, or finds its first fault.
fn list_selection(
    map: &HexMap,
    owner: PlayerId,
    weights: &AxialMap<u32>,
    lower_bounds: &AxialMap<u64>,
) -> (result: Result<Listing, DistributionError>)
    ensures
        match result {
            Ok(l) => accepts(map@, owner, weights@, lower_bounds@) && listing_matches(
                map@,
                weights@,
                lower_bounds@,
                l,
            ),
            Err(e) => rejects(map@, owner, weights@, lower_bounds@, e),
        },
{
    if weights.is_empty() {
        return Err(DistributionError::EmptySelection);
    }
    let keys = weights.keys();
    let bound_keys = lower_bounds.keys();
    let mut same = keys.len() == bound_keys.len();
    let mut k: usize = 0;
    while same && k < keys.len()
        invariant
            k <= keys.len(),
            same ==> keys@.len() == bound_keys@.len(),
            same ==> forall|j: int| 0 <= j < k ==> #[trigger] keys@[j] == bound_keys@[j],
            !same ==> keys@ != bound_keys@,
        decreases keys.len() - k,
    {
        if keys[k] != bound_keys[k] {
            same = false;
        }
        k += 1;
    }
    if !same {
        return Err(DistributionError::ConstraintCellsMismatch);
    }
    assert(keys@ =~= bound_keys@);
    assert(weights@.dom() == lower_bounds@.dom());
    let mut caps: Vec<u64> = Vec::new();
    let mut listed: Vec<u32> = Vec::new();
    let mut lows: Vec<u64> = Vec::new();
    let mut current: Vec<u64> = Vec::new();
    let mut i: usize = 0;
    while i < keys.len()
        invariant
            i <= keys.len(),
            keys@ == ordered(weights@.dom()),
            ascending(keys@),
            keys@.to_set() == weights@.dom(),
            weights@.dom() == lower_bounds@.dom(),
            weights@.dom() != Set::<Axial>::empty(),
            caps@.len() == i,
            listed@.len() == i,
            lows@.len() == i,
            current@.len() == i,
            forall|j: int|
                0 <= j < i ==> {
                    &&& constraint_fault(
                        map@,
                        owner,
                        lower_bounds@[#[trigger] keys@[j]],
                        keys@[j],
                    ) is None
                    &&& caps@[j] == map@[keys@[j]].military_capacity
                    &&& listed@[j] == weights@[keys@[j]]
                    &&& lows@[j] == lower_bounds@[keys@[j]]
                    &&& current@[j] == map@[keys@[j]].forces.infantry
                },
        decreases keys.len() - i,
    {
        let c = keys[i];
        proof {
            assert(keys@.to_set().contains(c));
            assert(weights@.dom().contains(c));
            assert(lower_bounds@.dom().contains(c));
        }
        let weight: u32 = match weights.get(c) {
            Some(weight) => *weight,
            None => {
                assert(false);
                0
            },
        };
        let bound: u64 = match lower_bounds.get(c) {
            Some(bound) => *bound,
            None => {
                assert(false);
                0
            },
        };
        let cell = match map.get(c) {
            Some(cell) => cell,
            None => {
                assert(first_constraint_fault(map@, owner, keys@, lower_bounds@, i as int));
                return Err(DistributionError::UnknownCell(c));
            },
        };
        let mine = match cell.owner {
            Some(o) => o == owner,
            None => false,
        };
        if !mine {
            assert(first_constraint_fault(map@, owner, keys@, lower_bounds@, i as int));
            return Err(DistributionError::NotOwned { coordinate: c, owner });
        }
        let force: u64 = cell.force();
        if force > cell.military_capacity {
            assert(first_constraint_fault(map@, owner, keys@, lower_bounds@, i as int));
            return Err(
                DistributionError::CurrentStrengthExceedsCapacity {
                    coordinate: c,
                    current: force,
                    capacity: cell.military_capacity,
                },
            );
        }
        if bound > force {
            assert(first_constraint_fault(map@, owner, keys@, lower_bounds@, i as int));
            return Err(
                DistributionError::InvalidLowerBound {
                    coordinate: c,
                    lower_bound: bound,
                    current: force,
                },
            );
        }
        caps.push(cell.military_capacity);
        listed.push(weight);
        lows.push(bound);
        current.push(force);
        i += 1;
    }
    proof {
        assert forall|c: Axial| #[trigger] weights@.contains_key(c) implies constraint_fault(
            map@,
            owner,
            lower_bounds@[c],
            c,
        ) is None by {
            assert(keys@.to_set().contains(c));
            let j = choose|j: int| 0 <= j < keys@.len() && keys@[j] == c;
            assert(constraint_fault(map@, owner, lower_bounds@[keys@[j]], keys@[j]) is None);
        }
        assert(ints(caps@) =~= capacities_at(map@, keys@));
        assert(weights_of(listed@) =~= weights_at(weights@, keys@));
        assert(ints(lows@) =~= bounds_at(lower_bounds@, keys@));
        assert(ints(current@) =~= forces_at(map@, keys@));
        assert forall|i: int| 0 <= i < keys@.len() implies lows@[i] <= (#[trigger] current@[i])
            <= caps@[i] by {
            assert(constraint_fault(map@, owner, lower_bounds@[keys@[i]], keys@[i]) is None);
        }
    }
    Ok(Listing { keys, caps, weights: listed, lows, current })
}

/// The places of the preferred and of the fallback cells.
fn split_preferred(weights: &Vec<u32>) -> (parts: (Vec<usize>, Vec<usize>))
    ensures
        indices(parts.0@) == preferred_places(weights_of(weights@)),
        indices(parts.1@) == fallback_places(weights_of(weights@)),
{
    let ghost w = weights_of(weights@);
    let ghost all = all_places(w.len());
    let ghost p = is_preferred(w);
    let ghost q = is_fallback(w);
    let mut preferred: Vec<usize> = Vec::new();
    let mut fallback: Vec<usize> = Vec::new();
    let mut x: usize = 0;
    proof {
        reveal(Seq::filter);
        assert(all.take(0) =~= Seq::empty());
        assert(indices(preferred@) =~= Seq::<int>::empty().filter(p));
        assert(indices(fallback@) =~= Seq::<int>::empty().filter(q));
    }
    while x < weights.len()
        invariant
            x <= weights.len(),
            w == weights_of(weights@),
            all == all_places(w.len()),
            p == is_preferred(w),
            q == is_fallback(w),
            indices(preferred@) == all.take(x as int).filter(p),
            indices(fallback@) == all.take(x as int).filter(q),
        decreases weights.len() - x,
    {
        let ghost preferred_was = preferred@;
        let ghost fallback_was = fallback@;
        let drawn = weights[x] > 0;
        assert(drawn == p(x as int));
        assert(!drawn == q(x as int));
        if drawn {
            preferred.push(x);
        } else {
            fallback.push(x);
        }
        proof {
            reveal(Seq::filter);
            assert(all.take(x + 1).drop_last() =~= all.take(x as int));
            assert(all.take(x + 1).last() == x);
            if drawn {
                assert(indices(preferred@) =~= indices(preferred_was).push(x as int));
            } else {
                assert(indices(fallback@) =~= indices(fallback_was).push(x as int));
            }
        }
        x += 1;
    }
    assert(all.take(x as int) =~= all);
    (preferred, fallback)
}

fn pick_weights(weights: &Vec<u32>, places: &Vec<usize>) -> (picked: Vec<u32>)
    requires
        are_places(indices(places@), weights@.len() as int),
    ensures
        weights_of(picked@) == pick(weights_of(weights@), indices(places@)),
        picked@.len() == places@.len(),
{
    let mut picked: Vec<u32> = Vec::new();
    let mut x: usize = 0;
    while x < places.len()
        invariant
            x <= places.len(),
            are_places(indices(places@), weights@.len() as int),
            picked@.len() == x,
            forall|y: int| 0 <= y < x ==> #[trigger] picked@[y] == weights@[places@[y] as int],
        decreases places.len() - x,
    {
        assert(0 <= indices(places@)[x as int] < weights@.len());
        picked.push(weights[places[x]]);
        x += 1;
    }
    assert(weights_of(picked@) =~= pick(weights_of(weights@), indices(places@)));
    picked
}

fn uniform_weights(n: usize) -> (weights: Vec<u32>)
    ensures
        weights@.len() == n,
        weights_of(weights@) == uniform(n as nat),
{
    let mut weights: Vec<u32> = Vec::new();
    let mut i: usize = 0;
    while i < n
        invariant
            i <= n,
            weights@.len() == i,
            forall|j: int| 0 <= j < i ==> #[trigger] weights@[j] == UNIFORM_ALLOCATION_WEIGHT,
        decreases n - i,
    {
        weights.push(UNIFORM_ALLOCATION_WEIGHT);
        i += 1;
    }
    assert(weights_of(weights@) =~= uniform(n as nat));
    weights
}

/// What fallback cells may keep at most.
fn keepable_amounts(caps: &Vec<u64>, current: &Vec<u64>) -> (amounts: Vec<u64>)
    requires
        caps@.len() == current@.len(),
    ensures
        amounts@.len() == caps@.len(),
        ints(amounts@) == keepable(ints(caps@), ints(current@)),
{
    let mut amounts: Vec<u64> = Vec::new();
    let mut i: usize = 0;
    while i < caps.len()
        invariant
            i <= caps.len(),
            caps@.len() == current@.len(),
            amounts@.len() == i,
            forall|j: int|
                0 <= j < i ==> #[trigger] amounts@[j] == least(caps@[j] as int, current@[j] as int),
        decreases caps.len() - i,
    {
        let amount: u64 = if caps[i] <= current[i] {
            caps[i]
        } else {
            current[i]
        };
        amounts.push(amount);
        i += 1;
    }
    assert(ints(amounts@) =~= keepable(ints(caps@), ints(current@)));
    amounts
}

/// What holds of the targets of a distribution with lower bounds.
pub proof fn lemma_constrained(cap: Seq<int>, weight: Seq<int>, low: Seq<int>, total: int)
    requires
        naturals(cap),
        naturals(low),
        weight.len() == cap.len(),
        low.len() == cap.len(),
        total >= 0,
        forall|i: int| 0 <= i < cap.len() ==> (#[trigger] low[i]) <= cap[i],
        forall|i: int| 0 <= i < weight.len() ==> (#[trigger] weight[i]) > 0,
    ensures
        constrained(cap, weight, low, total) matches Ok(t) ==> {
            &&& t.len() == cap.len()
            &&& forall|i: int| 0 <= i < cap.len() ==> low[i] <= #[trigger] t[i] <= cap[i]
            &&& sum(t) == least(total, sum(cap))
        },
        constrained(cap, weight, low, total) matches Err(e) ==> {
            ||| e == DistributionError::ArithmeticOverflow
            ||| {
                &&& e is InfeasibleFrozenStrength
                &&& sum(low) > least(total, sum(cap))
            }
        },
{
    lemma_sum_bounds(cap, 0);
    lemma_sum_bounds(low, 0);
    let goal = least(total, sum(cap));
    if sum(low) <= goal {
        let start = zeros(cap.len());
        lemma_all_places(cap);
        lemma_all_places(low);
        lemma_constrain(cap, weight, low, all_places(cap.len()), goal, start);
        lemma_sum_zeros(start);
        match constrain(cap, weight, low, all_places(cap.len()), goal, start) {
            Some(t) => {
                assert forall|i: int| 0 <= i < cap.len() implies low[i] <= #[trigger] t[i]
                    <= cap[i] by {
                    assert(all_places(cap.len())[i] == i);
                }
            },
            None => {},
        }
    }
}

/// The two kinds of places make up all places.
pub proof fn lemma_kinds_of_places(weight: Seq<int>)
    ensures
        are_places(preferred_places(weight), weight.len() as int),
        are_places(fallback_places(weight), weight.len() as int),
        forall|i: int| #[trigger]
            preferred_places(weight).contains(i) <==> 0 <= i < weight.len() && weight[i] > 0,
        forall|i: int| #[trigger]
            fallback_places(weight).contains(i) <==> 0 <= i < weight.len() && weight[i] <= 0,
        forall|x: int|
            0 <= x < preferred_places(weight).len() ==> weight[#[trigger] preferred_places(
                weight,
            )[x]] > 0,
        forall|f: Seq<int>|
            f.len() == weight.len() ==> sum(f) == sum(
                #[trigger] pick(f, preferred_places(weight)),
            ) + sum(pick(f, fallback_places(weight))),
{
    let n = weight.len();
    let all = all_places(n);
    assert forall|i: int| all.contains(i) <==> 0 <= i < n by {
        if 0 <= i < n {
            assert(all[i] == i);
        }
    }
    lemma_filter_places(all, is_preferred(weight), n as int);
    lemma_filter_places(all, is_fallback(weight), n as int);
    lemma_filter_parts(all, is_preferred(weight), is_fallback(weight));
    assert forall|f: Seq<int>| f.len() == n implies sum(f) == sum(
        #[trigger] pick(f, preferred_places(weight)),
    ) + sum(pick(f, fallback_places(weight))) by {
        lemma_all_places(f);
        assert(sum(pick(f, all)) == sum(pick(f, all.filter(is_preferred(weight)))) + sum(
            pick(f, all.filter(is_fallback(weight))),
        ));
    }
    assert forall|x: int| 0 <= x < preferred_places(weight).len() implies weight[
        #[trigger] preferred_places(weight)[x]
    ] > 0 by {
        assert(is_preferred(weight)(all.filter(is_preferred(weight))[x]));
    }
}

/// The shape comes first. Everything is placed; every cell keeps its lower
/// bound and stays within its capacity; a fallback cell never gains; and unless
/// the fallback cells are left with nothing but their lower bounds, every
/// preferred cell is full.
///
/// Room runs out only where the preferred capacity and what the fallback cells
/// hold do not suffice together.
pub proof fn law_shape_comes_first(
    cap: Seq<int>,
    weight: Seq<int>,
    low: Seq<int>,
    current: Seq<int>,
    total: int,
)
    requires
        cap.len() == weight.len() == low.len() == current.len(),
        naturals(low),
        naturals(weight),
        total >= 0,
        forall|i: int|
            0 <= i < cap.len() ==> low[i] <= (#[trigger] current[i]) && current[i] <= cap[i],
    ensures
        match shaped_targets(cap, weight, low, current, total) {
            Ok(t) => {
                &&& t.len() == cap.len()
                &&& sum(t) == total
                &&& forall|i: int| 0 <= i < cap.len() ==> low[i] <= #[trigger] t[i] <= cap[i]
                &&& forall|i: int|
                    0 <= i < cap.len() && weight[i] <= 0 ==> (#[trigger] t[i]) <= current[i]
                &&& (forall|i: int|
                    0 <= i < cap.len() && weight[i] <= 0 ==> #[trigger] t[i] == low[i]) || (forall|
                    i: int,
                |
                    0 <= i < cap.len() && weight[i] > 0 ==> #[trigger] t[i] == cap[i])
            },
            Err(DistributionError::InsufficientTargetCapacity { unassigned }) => total > sum(
                pick(cap, preferred_places(weight)),
            ) + sum(pick(keepable(cap, current), fallback_places(weight))),
            Err(_) => true,
        },
{
    let n = cap.len() as int;
    let p = preferred_places(weight);
    let f = fallback_places(weight);
    let keep = keepable(cap, current);
    lemma_kinds_of_places(weight);
    let cap_p = pick(cap, p);
    let low_p = pick(low, p);
    let w_p = pick(weight, p);
    let keep_f = pick(keep, f);
    let low_f = pick(low, f);
    assert forall|i: int| 0 <= i < n implies 0 <= #[trigger] low[i] <= keep[i] && keep[i]
        == current[i] && current[i] <= cap[i] by {
        assert(low[i] <= current[i] && current[i] <= cap[i]);
    }
    assert forall|x: int| 0 <= x < p.len() implies 0 <= #[trigger] low_p[x] <= cap_p[x] && w_p[x]
        > 0 by {
        assert(0 <= p[x] < n);
        assert(0 <= low[p[x]] <= keep[p[x]]);
        assert(weight[preferred_places(weight)[x]] > 0);
    }
    assert forall|x: int| 0 <= x < cap_p.len() implies 0 <= #[trigger] cap_p[x] by {
        assert(0 <= low_p[x] <= cap_p[x]);
    }
    assert forall|x: int| 0 <= x < w_p.len() implies 0 < #[trigger] w_p[x] by {
        assert(0 <= low_p[x] <= cap_p[x]);
    }
    assert forall|x: int| 0 <= x < f.len() implies 0 <= #[trigger] low_f[x] <= keep_f[x] by {
        assert(0 <= f[x] < n);
        assert(0 <= low[f[x]] <= keep[f[x]]);
    }
    assert forall|x: int| 0 <= x < keep_f.len() implies 0 <= #[trigger] keep_f[x] by {
        assert(0 <= low_f[x] <= keep_f[x]);
    }
    let goal_p = preferred_goal(cap, weight, low, total);
    lemma_sum_bounds(cap_p, 0);
    lemma_sum_bounds(low_f, 0);
    lemma_sum_le(low_f, keep_f);
    if total >= sum(low_f) {
        lemma_constrained(cap_p, w_p, low_p, goal_p);
        match preferred_targets(cap, weight, low, total) {
            Err(_) => {},
            Ok(tp) => {
                let left = total - sum(tp);
                lemma_constrained(keep_f, uniform(f.len()), low_f, left);
                match fallback_targets(cap, weight, low, current, left) {
                    Err(_) => {},
                    Ok(tf) => {
                        let base = zeros(cap.len());
                        let mid = scatter(base, p, tp);
                        let t = scatter(mid, f, tf);
                        lemma_scatter(base, p, tp);
                        lemma_scatter(mid, f, tf);
                        lemma_sum_zeros(base);
                        lemma_sum_zeros(pick(base, p));
                        let untouched = pick(mid, f);
                        assert forall|x: int| 0 <= x < untouched.len() implies #[trigger]
                            untouched[x] == 0 by {
                            assert(f.contains(f[x]));
                            assert(0 <= f[x] < n);
                            assert(!p.contains(f[x]));
                            assert(mid[f[x]] == base[f[x]]);
                        }
                        lemma_sum_zeros(untouched);
                        assert forall|i: int| 0 <= i < n && weight[i] > 0 implies exists|x: int|
                            0 <= x < p.len() && #[trigger] p[x] == i && t[i] == tp[x] by {
                            assert(p.contains(i));
                            assert(!f.contains(i));
                            let x = choose|x: int| 0 <= x < p.len() && p[x] == i;
                            assert(mid[p[x]] == tp[x]);
                            assert(t[i] == mid[i]);
                        }
                        assert forall|i: int| 0 <= i < n && weight[i] <= 0 implies exists|x: int|
                            0 <= x < f.len() && #[trigger] f[x] == i && t[i] == tf[x] by {
                            assert(f.contains(i));
                            let x = choose|x: int| 0 <= x < f.len() && f[x] == i;
                            assert(t[f[x]] == tf[x]);
                        }
                        assert forall|i: int| 0 <= i < n implies low[i] <= #[trigger] t[i]
                            <= cap[i] by {
                            assert(0 <= low[i] <= keep[i]);
                            if weight[i] > 0 {
                                let x = choose|x: int|
                                    0 <= x < p.len() && #[trigger] p[x] == i && t[i] == tp[x];
                                assert(low_p[x] <= tp[x] <= cap_p[x]);
                            } else {
                                let x = choose|x: int|
                                    0 <= x < f.len() && #[trigger] f[x] == i && t[i] == tf[x];
                                assert(low_f[x] <= tf[x] <= keep_f[x]);
                            }
                        }
                        assert forall|i: int| 0 <= i < n && weight[i] <= 0 implies (#[trigger] t[i])
                            <= current[i] by {
                            let x = choose|x: int|
                                0 <= x < f.len() && #[trigger] f[x] == i && t[i] == tf[x];
                            assert(low_f[x] <= tf[x] <= keep_f[x]);
                            assert(keep[i] == current[i]) by {
                                assert(0 <= low[i] <= keep[i]);
                            }
                        }
                        if goal_p == total - sum(low_f) {
                            // The fallback cells are left with exactly their bounds.
                            lemma_equal_sums(low_f, tf);
                            assert forall|i: int| 0 <= i < n && weight[i] <= 0 implies #[trigger] t[i]
                                == low[i] by {
                                let x = choose|x: int|
                                    0 <= x < f.len() && #[trigger] f[x] == i && t[i] == tf[x];
                                assert(tf[x] == low_f[x]);
                            }
                        } else {
                            lemma_equal_sums(tp, cap_p);
                            assert forall|i: int| 0 <= i < n && weight[i] > 0 implies #[trigger] t[i]
                                == cap[i] by {
                                let x = choose|x: int|
                                    0 <= x < p.len() && #[trigger] p[x] == i && t[i] == tp[x];
                                assert(tp[x] == cap_p[x]);
                            }
                        }
                    },
                }
            },
        }
    }
}

/// Sequences of which one lies below the other and whose sums are equal are
/// equal.
proof fn lemma_equal_sums(s: Seq<int>, t: Seq<int>)
    requires
        s.len() == t.len(),
        forall|i: int| 0 <= i < s.len() ==> #[trigger] s[i] <= t[i],
        sum(s) >= sum(t),
    ensures
        forall|i: int| 0 <= i < s.len() ==> #[trigger] s[i] == t[i],
    decreases s.len(),
{
    if s.len() > 0 {
        let d = s.drop_last();
        let e = t.drop_last();
        assert(s[s.len() - 1] <= t[s.len() - 1]);
        assert forall|i: int| 0 <= i < d.len() implies #[trigger] d[i] <= e[i] by {
            assert(s[i] <= t[i]);
        }
        lemma_sum_le(d, e);
        lemma_equal_sums(d, e);
        assert forall|i: int| 0 <= i < s.len() implies #[trigger] s[i] == t[i] by {
            if i < d.len() {
                assert(d[i] == e[i]);
            }
        }
    }
}

/// Apportions strength into preferred cells first, then uses zero-weight cells
/// as deterministic overflow storage.
///
/// This is the best-effort shape-drawing primitive. Positive weights identify
/// the drawn footprint, while zero-weight cells are source cells that may keep
/// strength when the footprint is too small. Frozen lower bounds are always
/// honored. If the preferred cells can hold all non-frozen strength, fallback
/// cells receive only their lower bounds; otherwise every preferred cell is
/// saturated before overflow is balanced across the fallback cells' current
/// affected strength. Consequently a fallback source can only retain or lose
/// strength, never gain it from another excluded source.
pub fn redistribution_targets_with_fallback_constraints(
    map: &HexMap,
    owner: PlayerId,
    weights: AxialMap<u32>,
    lower_bounds: AxialMap<Strength>,
    total_strength: Strength,
) -> (result: Result<TargetDistribution, DistributionError>)
    ensures
        match result {
            Ok(d) => {
                let keys = ordered(weights@.dom());
                &&& accepts(map@, owner, weights@, lower_bounds@)
                &&& prescribed(map@, weights@, lower_bounds@, total_strength as int) is Ok
                &&& d.weights@ == weights@
                &&& d.targets@.dom() == weights@.dom()
                &&& forall|i: int|
                    #![trigger keys[i]]
                    0 <= i < keys.len() ==> d.targets@[keys[i]] == prescribed(
                        map@,
                        weights@,
                        lower_bounds@,
                        total_strength as int,
                    )->Ok_0[i]
                &&& d.assigned == total_strength
                &&& d.unassigned == 0
                &&& forall|c: Axial| #[trigger]
                    weights@.contains_key(c) ==> lower_bounds@[c] <= d.targets@[c]
                        <= map@[c].military_capacity && (weights@[c] == 0 ==> d.targets@[c]
                        <= map@[c].forces.infantry)
            },
            Err(e) => rejects(map@, owner, weights@, lower_bounds@, e) || (accepts(
                map@,
                owner,
                weights@,
                lower_bounds@,
            ) && prescribed(map@, weights@, lower_bounds@, total_strength as int) == Err::<
                Seq<int>,
                DistributionError,
            >(e)),
        },
{
    let l = match list_selection(map, owner, &weights, &lower_bounds) {
        Ok(l) => l,
        Err(e) => {
            return Err(e);
        },
    };
    let ghost keys = ordered(weights@.dom());
    let ghost cap = ints(l.caps@);
    let ghost w = weights_of(l.weights@);
    let ghost low = ints(l.lows@);
    let ghost current = ints(l.current@);
    let ghost total = total_strength as int;
    let (preferred, fallback) = split_preferred(&l.weights);
    let ghost p = indices(preferred@);
    let ghost f = indices(fallback@);
    proof {
        lemma_kinds_of_places(w);
        lemma_pick_within(low, f);
        lemma_pick_within(low, p);
        lemma_pick_within(cap, p);
        assert forall|i: int| 0 <= i < cap.len() implies low[i] <= (#[trigger] current[i])
            && current[i] <= cap[i] by {
            assert(l.lows@[i] <= l.current@[i] <= l.caps@[i]);
        }
        law_shape_comes_first(cap, w, low, current, total);
    }
    let frozen_total: u64 = match checked_sum(l.lows.as_slice()) {
        Some(sum) => sum,
        None => {
            return Err(DistributionError::ArithmeticOverflow);
        },
    };
    let caps_p = pick_places(l.caps.as_slice(), &preferred);
    let lows_p = pick_places(l.lows.as_slice(), &preferred);
    let weights_p = pick_weights(&l.weights, &preferred);
    let lows_f = pick_places(l.lows.as_slice(), &fallback);
    let preferred_capacity: u64 = match checked_sum(caps_p.as_slice()) {
        Some(sum) => sum,
        None => {
            return Err(DistributionError::ArithmeticOverflow);
        },
    };
    let fallback_floor: u64 = match checked_sum(lows_f.as_slice()) {
        Some(sum) => sum,
        None => {
            assert(false);
            0
        },
    };
    if total_strength < fallback_floor {
        return Err(
            DistributionError::InfeasibleFrozenStrength {
                frozen: frozen_total,
                goal: total_strength,
            },
        );
    }
    let goal_p: u64 = if total_strength - fallback_floor <= preferred_capacity {
        total_strength - fallback_floor
    } else {
        preferred_capacity
    };
    proof {
        assert forall|x: int| 0 <= x < caps_p@.len() implies (#[trigger] lows_p@[x])
            <= caps_p@[x] by {
            assert(ints(lows_p@)[x] == low[p[x]]);
            assert(ints(caps_p@)[x] == cap[p[x]]);
            assert(0 <= p[x] < cap.len());
            assert(low[p[x]] <= current[p[x]] && current[p[x]] <= cap[p[x]]);
        }
        assert forall|x: int| 0 <= x < caps_p@.len() implies (#[trigger] weights_p@[x]) > 0 by {
            assert(weights_of(weights_p@)[x] == w[p[x]]);
            assert(w[preferred_places(w)[x]] > 0);
        }
    }
    let targets_p = match constrained_targets(
        caps_p.as_slice(),
        weights_p.as_slice(),
        lows_p.as_slice(),
        goal_p,
    ) {
        Ok(targets) => targets,
        Err(e) => {
            return Err(e);
        },
    };
    let assigned_p: u64 = match checked_sum(targets_p.as_slice()) {
        Some(sum) => sum,
        None => {
            assert(false);
            0
        },
    };
    let left: u64 = total_strength - assigned_p;
    let kept = keepable_amounts(&l.caps, &l.current);
    let kept_f = pick_places(kept.as_slice(), &fallback);
    let uniform_f = uniform_weights(fallback.len());
    proof {
        assert(f.len() == fallback@.len());
        assert forall|x: int| 0 <= x < kept_f@.len() implies (#[trigger] lows_f@[x])
            <= kept_f@[x] by {
            assert(ints(lows_f@)[x] == low[f[x]]);
            assert(ints(kept_f@)[x] == keepable(cap, current)[f[x]]);
            assert(0 <= f[x] < cap.len());
            assert(low[f[x]] <= current[f[x]] && current[f[x]] <= cap[f[x]]);
        }
    }
    let targets_f = match constrained_targets(
        kept_f.as_slice(),
        uniform_f.as_slice(),
        lows_f.as_slice(),
        left,
    ) {
        Ok(targets) => targets,
        Err(e) => {
            return Err(e);
        },
    };
    let assigned_f: u64 = match checked_sum(targets_f.as_slice()) {
        Some(sum) => sum,
        None => {
            assert(false);
            0
        },
    };
    let assigned: u64 = assigned_p + assigned_f;
    if assigned < total_strength {
        return Err(
            DistributionError::InsufficientTargetCapacity { unassigned: total_strength - assigned },
        );
    }
    let mut all = zero_targets(l.caps.len());
    write_places(&mut all, &preferred, &targets_p);
    write_places(&mut all, &fallback, &targets_f);
    let ghost t = ints(all@);
    proof {
        assert(shaped_targets(cap, w, low, current, total) == Ok::<Seq<int>, DistributionError>(t));
    }
    let mut targets: AxialMap<u64> = AxialMap::new();
    let mut i: usize = 0;
    assert(targets@.dom() =~= l.keys@.take(0).to_set());
    while i < l.keys.len()
        invariant
            i <= l.keys.len(),
            l.keys@ == keys,
            ascending(keys),
            all@.len() == keys.len(),
            targets@.dom() == keys.take(i as int).to_set(),
            forall|j: int| 0 <= j < i ==> targets@[#[trigger] keys[j]] == all@[j],
        decreases l.keys.len() - i,
    {
        let c = l.keys[i];
        targets.insert(c, all[i]);
        proof {
            assert(keys.take(i + 1) =~= keys.take(i as int).push(c));
            crate::axials::lemma_to_set_push(keys.take(i as int), c);
            assert(targets@.dom() =~= keys.take(i + 1).to_set());
            assert forall|j: int| 0 <= j < i + 1 implies targets@[#[trigger] keys[j]] == all@[j] by {
                if j < i {
                    assert(axial_lt(keys[j], keys[i as int]));
                }
            }
        }
        i += 1;
    }
    proof {
        assert(keys.take(i as int) =~= keys);
        assert forall|c: Axial| #[trigger] weights@.contains_key(c) implies lower_bounds@[c]
            <= targets@[c] <= map@[c].military_capacity && (weights@[c] == 0 ==> targets@[c]
            <= map@[c].forces.infantry) by {
            assert(keys.to_set().contains(c));
            let j = choose|j: int| 0 <= j < keys.len() && keys[j] == c;
            assert(targets@[keys[j]] == all@[j]);
            assert(low[j] <= t[j] <= cap[j]);
            assert(low[j] == bounds_at(lower_bounds@, keys)[j]);
            assert(cap[j] == capacities_at(map@, keys)[j]);
            assert(w[j] == weights_at(weights@, keys)[j]);
            assert(current[j] == forces_at(map@, keys)[j]);
            if w[j] <= 0 {
                assert(t[j] <= current[j]);
            }
        }
        assert forall|i: int|
            #![trigger keys[i]]
            0 <= i < keys.len() implies targets@[keys[i]] == prescribed(
            map@,
            weights@,
            lower_bounds@,
            total_strength as int,
        )->Ok_0[i] by {
            assert(t[i] == all@[i]);
        }
    }
    Ok(TargetDistribution { weights, targets, assigned, unassigned: total_strength - assigned })
}

} // verus!
