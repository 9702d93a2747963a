//! Simultaneous combat across the edges of one cell.
use vstd::prelude::*;
use std::collections::BTreeMap;
use crate::apportion::{apportioned, largest_remainder, wide};
use crate::conquest::BASIS_POINTS;
use crate::coord::{abs, adjacent, axial_lt, magnitude, Axial};
use crate::map::{PlayerId, Strength};
use crate::order::{
    ids_ascending, ints, is_order, key_before, lemma_sum_bounds, look, ordered_ids, put, sorted_keys,
    stable_order, sum,
};

verus! {

#[derive(Clone, Copy, Debug, Eq, PartialEq, Structural)]
pub struct CombatConfig {
    pub max_elevation_step: u16,
    /// Multiplier applied when the destination is above the attacker.
    pub uphill_attack_bps: u32,
    /// Damage dealt to allocated defenders by effective attack strength.
    pub attacker_damage_bps: u32,
    /// Damage dealt to engaged attackers by allocated defense strength.
    pub defender_damage_bps: u32,
}

impl Default for CombatConfig {
    fn default() -> (config: CombatConfig)
        ensures
            config == (CombatConfig {
                max_elevation_step: 1,
                uphill_attack_bps: 7_500,
                attacker_damage_bps: 10_000,
                defender_damage_bps: 10_000,
            }),
    {
        CombatConfig {
            max_elevation_step: 1,
            uphill_attack_bps: 7_500,
            attacker_damage_bps: 10_000,
            defender_damage_bps: 10_000,
        }
    }
}

#[derive(Clone, Copy, Debug, Eq, PartialEq, Structural)]
pub struct AttackFront {
    pub id: u64,
    pub attacker: PlayerId,
    pub from: Axial,
    pub from_elevation: i16,
    pub offered: Strength,
    pub frontage: Strength,
}

#[derive(Clone, Copy, Debug, Eq, PartialEq, Structural)]
pub enum CombatError {
    InvalidConfig,
}

/// Why one attack front was excluded from a resolution while the remaining
/// valid fronts still resolved.
#[derive(Clone, Copy, Debug, Eq, Ord, PartialEq, PartialOrd, Structural)]
pub enum FrontRejection {
    DuplicateAttackId,
    DuplicateOrigin,
    NonAdjacent,
    ImpassableCliff,
}

#[derive(Clone, Copy, Debug, Eq, PartialEq, Structural)]
pub struct RejectedFront {
    pub id: u64,
    pub attacker: PlayerId,
    pub from: Axial,
    pub reason: FrontRejection,
}

#[derive(Clone, Copy, Debug, Eq, PartialEq, Structural)]
pub struct AttackOutcome {
    pub id: u64,
    pub attacker: PlayerId,
    pub offered: Strength,
    pub engaged: Strength,
    pub waiting: Strength,
    pub effective_attack: Strength,
    pub defense_allocated: Strength,
    pub attacker_casualties: Strength,
    pub defender_casualties: Strength,
    pub attacker_remaining: Strength,
}

#[derive(Clone, Debug, Eq, PartialEq)]
pub struct CombatResolution {
    pub defender_initial: Strength,
    pub defender_casualties: Strength,
    pub defender_remaining: Strength,
    pub attacks: BTreeMap<u64, AttackOutcome>,
    /// Malformed fronts excluded from this resolution, sorted by `(id, from)`.
    /// Valid fronts still resolved; callers decide how to retire the rejected
    /// allocations.
    pub rejected: Vec<RejectedFront>,
    /// The owner selected to occupy if the caller can admit the capture.
    pub capturing_owner: Option<PlayerId>,
    /// The surviving front of `capturing_owner` selected to occupy if the
    /// caller can admit it under throughput and destination-capacity rules.
    pub capturing_front: Option<u64>,
}

/// The lesser of two numbers.
pub open spec fn least(a: int, b: int) -> int {
    if a <= b {
        a
    } else {
        b
    }
}

/// A product with a ratio in basis points, rounded down and capped.
pub open spec fn scaled(value: int, basis_points: int) -> int {
    least((value * basis_points) / 10_000, u64::MAX as int)
}

/// Whether another front of the list has the same ID.
pub open spec fn shares_id(attacks: Seq<AttackFront>, k: int) -> bool {
    exists|j: int| 0 <= j < attacks.len() && j != k && (#[trigger] attacks[j]).id == attacks[k].id
}

/// Whether another front of the list has the same origin.
pub open spec fn shares_origin(attacks: Seq<AttackFront>, k: int) -> bool {
    exists|j: int|
        0 <= j < attacks.len() && j != k && (#[trigger] attacks[j]).from == attacks[k].from
}

/// Why a front of the list is rejected, if it is.
pub open spec fn rejection(
    target: Axial,
    defender_elevation: i16,
    attacks: Seq<AttackFront>,
    config: CombatConfig,
    k: int,
) -> Option<FrontRejection> {
    if shares_id(attacks, k) {
        Some(FrontRejection::DuplicateAttackId)
    } else if shares_origin(attacks, k) {
        Some(FrontRejection::DuplicateOrigin)
    } else if !adjacent(target, attacks[k].from) {
        Some(FrontRejection::NonAdjacent)
    } else if abs(defender_elevation - attacks[k].from_elevation) > config.max_elevation_step {
        Some(FrontRejection::ImpassableCliff)
    } else {
        None
    }
}

/// The strength of a front that fits on its edge.
pub open spec fn engaged(front: AttackFront) -> int {
    least(front.offered as int, front.frontage as int)
}

/// The defenders divided among edges: as many as are engaged against them, in
/// proportion to the engaged strength of each edge.
pub open spec fn defense(available: int, demands: Seq<int>) -> Seq<int> {
    if available == 0 || sum(demands) == 0 {
        Seq::new(demands.len(), |i: int| 0)
    } else {
        apportioned(least(available, sum(demands)), demands)
    }
}

/// The outcome on one edge with the defenders allocated to it.
pub open spec fn outcome_of(
    front: AttackFront,
    allocated: int,
    defender_elevation: i16,
    config: CombatConfig,
) -> AttackOutcome {
    let effective = scaled(
        engaged(front),
        if defender_elevation > front.from_elevation {
            config.uphill_attack_bps as int
        } else {
            10_000
        },
    );
    let attackers_lost = least(engaged(front), scaled(allocated, config.defender_damage_bps as int));
    let defenders_lost = least(allocated, scaled(effective, config.attacker_damage_bps as int));
    AttackOutcome {
        id: front.id,
        attacker: front.attacker,
        offered: front.offered,
        engaged: engaged(front) as u64,
        waiting: (front.offered - engaged(front)) as u64,
        effective_attack: effective as u64,
        defense_allocated: allocated as u64,
        attacker_casualties: attackers_lost as u64,
        defender_casualties: defenders_lost as u64,
        attacker_remaining: (front.offered - attackers_lost) as u64,
    }
}

/// Whether a front of the list that takes part is the given one.
pub open spec fn takes_part(
    target: Axial,
    defender_elevation: i16,
    attacks: Seq<AttackFront>,
    config: CombatConfig,
    front: AttackFront,
) -> bool {
    exists|k: int|
        0 <= k < attacks.len() && #[trigger] attacks[k] == front && rejection(
            target,
            defender_elevation,
            attacks,
            config,
            k,
        ) is None
}

/// The fronts of the list that take part, in ascending order of their IDs.
pub open spec fn is_valid_listing(
    target: Axial,
    defender_elevation: i16,
    attacks: Seq<AttackFront>,
    config: CombatConfig,
    valid: Seq<AttackFront>,
) -> bool {
    &&& forall|i: int, j: int| 0 <= i < j < valid.len() ==> (#[trigger] valid[i]).id < (
    #[trigger] valid[j]).id
    &&& forall|i: int|
        0 <= i < valid.len() ==> takes_part(
            target,
            defender_elevation,
            attacks,
            config,
            #[trigger] valid[i],
        )
    &&& forall|k: int|
        0 <= k < attacks.len() && rejection(target, defender_elevation, attacks, config, k) is None
            ==> valid.contains(#[trigger] attacks[k])
}

/// The report on a rejected front.
pub open spec fn report(front: AttackFront, reason: FrontRejection) -> RejectedFront {
    RejectedFront { id: front.id, attacker: front.attacker, from: front.from, reason }
}

/// The order of reports: by ID, origin, then attacker; equal ones may follow
/// each other.
pub open spec fn report_le(a: RejectedFront, b: RejectedFront) -> bool {
    a.id < b.id || (a.id == b.id && (axial_lt(a.from, b.from) || (a.from == b.from && a.attacker
        <= b.attacker)))
}

/// The reports on the rejected fronts, each front once, in order.
pub open spec fn is_rejection_listing(
    target: Axial,
    defender_elevation: i16,
    attacks: Seq<AttackFront>,
    config: CombatConfig,
    rejected: Seq<RejectedFront>,
) -> bool {
    &&& forall|i: int, j: int|
        0 <= i < j < rejected.len() ==> report_le(#[trigger] rejected[i], #[trigger] rejected[j])
    &&& exists|places: Seq<int>|
        {
            &&& #[trigger] places.len() == rejected.len()
            &&& places.no_duplicates()
            &&& forall|i: int|
                0 <= i < places.len() ==> {
                    &&& 0 <= #[trigger] places[i] < attacks.len()
                    &&& rejection(target, defender_elevation, attacks, config, places[i]) is Some
                    &&& rejected[i] == report(
                        attacks[places[i]],
                        rejection(
                            target,
                            defender_elevation,
                            attacks,
                            config,
                            places[i],
                        ).unwrap(),
                    )
                }
            &&& forall|k: int|
                0 <= k < attacks.len() && rejection(
                    target,
                    defender_elevation,
                    attacks,
                    config,
                    k,
                ) is Some ==> #[trigger] places.contains(k)
        }
}

/// The engaged strength of each front.
pub open spec fn demands_of(valid: Seq<AttackFront>) -> Seq<int> {
    Seq::new(valid.len(), |i: int| engaged(valid[i]))
}

/// The outcomes of the fronts that take part, in the order of the fronts.
pub open spec fn outcomes_of(
    valid: Seq<AttackFront>,
    defender_strength: int,
    defender_elevation: i16,
    config: CombatConfig,
) -> Seq<AttackOutcome> {
    Seq::new(
        valid.len(),
        |i: int|
            outcome_of(
                valid[i],
                defense(defender_strength, demands_of(valid))[i],
                defender_elevation,
                config,
            ),
    )
}

/// The defenders lost on all edges.
pub open spec fn casualties(outcomes: Seq<AttackOutcome>) -> int {
    sum(Seq::new(outcomes.len(), |i: int| outcomes[i].defender_casualties as int))
}

/// The outcomes of a map in ascending order of their keys.
pub open spec fn listing(outcomes: Map<u64, AttackOutcome>) -> Seq<AttackOutcome> {
    ordered_ids(outcomes.dom()).map_values(|id: u64| outcomes[id])
}

/// The surviving strength of one owner over all fronts.
pub open spec fn survivors_of(outcomes: Seq<AttackOutcome>, owner: PlayerId) -> int {
    sum(
        Seq::new(
            outcomes.len(),
            |i: int|
                if outcomes[i].attacker == owner {
                    outcomes[i].attacker_remaining as int
                } else {
                    0
                },
        ),
    )
}

/// The capture rule: the owner with the largest total of survivors, the smaller
/// owner on a tie; of that owner's fronts the one with the most survivors, the
/// smaller ID on a tie.
pub open spec fn captures(
    outcomes: Seq<AttackOutcome>,
    owner: Option<PlayerId>,
    front: Option<u64>,
) -> bool {
    match (owner, front) {
        (Some(o), Some(f)) => {
            &&& survivors_of(outcomes, o) > 0
            &&& forall|p: PlayerId| #[trigger]
                survivors_of(outcomes, p) > 0 && p != o ==> survivors_of(outcomes, p)
                    < survivors_of(outcomes, o) || (survivors_of(outcomes, p) == survivors_of(
                    outcomes,
                    o,
                ) && o < p)
            &&& exists|i: int|
                0 <= i < outcomes.len() && (#[trigger] outcomes[i]).id == f && outcomes[i].attacker
                    == o && outcomes[i].attacker_remaining > 0 && forall|j: int|
                    0 <= j < outcomes.len() && (#[trigger] outcomes[j]).attacker == o
                        && outcomes[j].attacker_remaining > 0 ==> outcomes[j].attacker_remaining
                        < outcomes[i].attacker_remaining || (outcomes[j].attacker_remaining
                        == outcomes[i].attacker_remaining && f <= outcomes[j].id)
        },
        (None, None) => forall|i: int|
            0 <= i < outcomes.len() ==> (#[trigger] outcomes[i]).attacker_remaining == 0,
        _ => false,
    }
}

fn min_strength(a: u64, b: u64) -> (m: u64)
    ensures
        m == least(a as int, b as int),
{
    if a <= b {
        a
    } else {
        b
    }
}

fn multiply_bps_floor(value: u64, basis_points: u32) -> (product: u64)
    ensures
        product == scaled(value as int, basis_points as int),
{
    assert(0 <= value * basis_points <= 0xffff_ffff_ffff_ffff * 0xffff_ffff) by (nonlinear_arith)
        requires
            0 <= value <= 0xffff_ffff_ffff_ffff,
            0 <= basis_points <= 0xffff_ffff,
    ;
    let product: u128 = (value as u128 * basis_points as u128) / 10_000;
    if product > u64::MAX as u128 {
        u64::MAX
    } else {
        product as u64
    }
}

/// Divides the available defenders among demands in proportion to them.
fn proportional_allocation(available: Strength, demands: &[u64]) -> (allocations: Vec<u64>)
    ensures
        ints(allocations@) == defense(available as int, ints(demands@)),
        sum(ints(allocations@)) == least(available as int, sum(ints(demands@))),
        forall|i: int| 0 <= i < demands@.len() ==> (#[trigger] allocations@[i]) <= demands@[i],
{
    let ghost d = ints(demands@);
    let mut total: u128 = 0;
    let mut scores: Vec<u128> = Vec::new();
    let mut i: usize = 0;
    assert(d.take(0) =~= Seq::empty());
    while i < demands.len()
        invariant
            i <= demands.len(),
            d == ints(demands@),
            scores@.len() == i,
            forall|j: int| 0 <= j < i ==> #[trigger] scores@[j] == demands@[j],
            total == sum(d.take(i as int)),
            total <= 0xffff_ffff_ffff_ffff * i,
        decreases demands.len() - i,
    {
        assert(d.take(i + 1).drop_last() =~= d.take(i as int));
        scores.push(demands[i] as u128);
        total = total + demands[i] as u128;
        i += 1;
    }
    proof {
        assert(d.take(i as int) =~= d);
        assert(wide(scores@) =~= d);
        lemma_sum_bounds(d, 0);
    }
    if available == 0 || total == 0 {
        let mut zeros: Vec<u64> = Vec::new();
        let mut k: usize = 0;
        while k < demands.len()
            invariant
                k <= demands.len(),
                zeros@.len() == k,
                forall|j: int| 0 <= j < k ==> #[trigger] zeros@[j] == 0,
            decreases demands.len() - k,
        {
            zeros.push(0);
            k += 1;
        }
        proof {
            assert(ints(zeros@) =~= defense(available as int, d));
            crate::order::lemma_sum_zeros(ints(zeros@));
        }
        return zeros;
    }
    let assigned: u64 = if (available as u128) < total {
        available
    } else {
        total as u64
    };
    proof {
        assert forall|i: int| 0 <= i < scores@.len() implies assigned * (#[trigger] scores@[i])
            <= u128::MAX by {
            assert(assigned * scores@[i] <= 0xffff_ffff_ffff_ffff * 0xffff_ffff_ffff_ffff)
                by (nonlinear_arith)
                requires
                    0 <= assigned <= 0xffff_ffff_ffff_ffff,
                    0 <= scores@[i] <= 0xffff_ffff_ffff_ffff,
            ;
        }
    }
    let (allocations, _last) = largest_remainder(assigned, scores.as_slice(), total);
    proof {
        assert(allocations@.len() == ints(allocations@).len());
        assert forall|i: int| 0 <= i < demands@.len() implies (#[trigger] allocations@[i])
            <= demands@[i] by {
            lemma_share_within(assigned as int, d, i);
            assert(ints(allocations@)[i] == apportioned(assigned as int, d)[i]);
        }
    }
    allocations
}

/// An entry never gets more than its score where the amount is at most the
/// total score.
pub proof fn lemma_share_within(amount: int, scores: Seq<int>, i: int)
    requires
        0 <= amount <= sum(scores),
        sum(scores) > 0,
        forall|i: int| 0 <= i < scores.len() ==> 0 <= #[trigger] scores[i],
        0 <= i < scores.len(),
    ensures
        0 <= apportioned(amount, scores)[i] <= scores[i],
{
    let w = sum(scores);
    let p = amount * scores[i];
    let f = crate::apportion::floor_share(amount, scores, i);
    let r = crate::apportion::remainder_of(amount, scores, i);
    crate::apportion::lemma_leftover(amount, scores);
    vstd::arithmetic::div_mod::lemma_fundamental_div_mod(p, w);
    assert(p <= w * scores[i]) by (nonlinear_arith)
        requires
            p == amount * scores[i],
            amount <= w,
            0 <= scores[i],
    ;
    assert(f <= scores[i] && (f == scores[i] ==> r == 0)) by (nonlinear_arith)
        requires
            p == w * f + r,
            0 <= r,
            p <= w * scores[i],
            w > 0,
    ;
    if crate::apportion::share(amount, scores, i) > f {
        crate::apportion::lemma_extra_needs_remainder(amount, scores, i);
    }
}

/// The total of one owner's survivors.
fn owner_total(outcomes: &[AttackOutcome], owner: PlayerId) -> (total: u128)
    ensures
        total == survivors_of(outcomes@, owner),
{
    let ghost s = Seq::new(
        outcomes@.len(),
        |i: int|
            if outcomes@[i].attacker == owner {
                outcomes@[i].attacker_remaining as int
            } else {
                0
            },
    );
    let mut total: u128 = 0;
    let mut i: usize = 0;
    assert(s.take(0) =~= Seq::empty());
    while i < outcomes.len()
        invariant
            i <= outcomes.len(),
            s == Seq::new(
                outcomes@.len(),
                |i: int|
                    if outcomes@[i].attacker == owner {
                        outcomes@[i].attacker_remaining as int
                    } else {
                        0
                    },
            ),
            total == sum(s.take(i as int)),
            total <= 0xffff_ffff_ffff_ffff * i,
        decreases outcomes.len() - i,
    {
        assert(s.take(i + 1).drop_last() =~= s.take(i as int));
        if outcomes[i].attacker == owner {
            total = total + outcomes[i].attacker_remaining as u128;
        }
        i += 1;
    }
    assert(s.take(i as int) =~= s);
    total
}

proof fn lemma_survivors_positive(outcomes: Seq<AttackOutcome>, owner: PlayerId)
    ensures
        survivors_of(outcomes, owner) > 0 <==> exists|i: int|
            0 <= i < outcomes.len() && (#[trigger] outcomes[i]).attacker == owner
                && outcomes[i].attacker_remaining > 0,
        survivors_of(outcomes, owner) >= 0,
{
    let s = Seq::new(
        outcomes.len(),
        |i: int|
            if outcomes[i].attacker == owner {
                outcomes[i].attacker_remaining as int
            } else {
                0
            },
    );
    lemma_sum_bounds(s, 0);
    if exists|i: int|
        0 <= i < outcomes.len() && (#[trigger] outcomes[i]).attacker == owner
            && outcomes[i].attacker_remaining > 0 {
        let i = choose|i: int|
            0 <= i < outcomes.len() && (#[trigger] outcomes[i]).attacker == owner
                && outcomes[i].attacker_remaining > 0;
        assert(s[i] <= sum(s));
    } else {
        assert forall|i: int| 0 <= i < s.len() implies #[trigger] s[i] == 0 by {
            assert(outcomes[i].attacker == owner ==> outcomes[i].attacker_remaining == 0);
        }
        crate::order::lemma_sum_zeros(s);
    }
}

/// Applies the capture rule to listed outcomes.
fn capture_of(outcomes: &[AttackOutcome]) -> (selected: (Option<PlayerId>, Option<u64>))
    ensures
        captures(outcomes@, selected.0, selected.1),
{
    let mut best: Option<(PlayerId, u128)> = None;
    let mut i: usize = 0;
    while i < outcomes.len()
        invariant
            i <= outcomes.len(),
            match best {
                Some((o, t)) => {
                    &&& t == survivors_of(outcomes@, o)
                    &&& t > 0
                    &&& forall|j: int|
                        0 <= j < i && (#[trigger] outcomes@[j]).attacker_remaining > 0
                            && outcomes@[j].attacker != o ==> survivors_of(
                            outcomes@,
                            outcomes@[j].attacker,
                        ) < t || (survivors_of(outcomes@, outcomes@[j].attacker) == t && o
                            < outcomes@[j].attacker)
                },
                None => forall|j: int|
                    0 <= j < i ==> (#[trigger] outcomes@[j]).attacker_remaining == 0,
            },
        decreases outcomes.len() - i,
    {
        if outcomes[i].attacker_remaining > 0 {
            let owner: u32 = outcomes[i].attacker;
            let total: u128 = owner_total(outcomes, owner);
            proof {
                lemma_survivors_positive(outcomes@, owner);
                assert(outcomes@[i as int].attacker == owner);
            }
            let better = match best {
                Some((o, t)) => t < total || (t == total && owner < o),
                None => true,
            };
            if better {
                best = Some((owner, total));
            }
        }
        i += 1;
    }
    let owner: u32 = match best {
        Some((owner, _)) => owner,
        None => {
            return (None, None);
        },
    };
    proof {
        lemma_survivors_positive(outcomes@, owner);
        assert forall|p: PlayerId| #[trigger]
            survivors_of(outcomes@, p) > 0 && p != owner implies survivors_of(outcomes@, p)
            < survivors_of(outcomes@, owner) || (survivors_of(outcomes@, p) == survivors_of(
            outcomes@,
            owner,
        ) && owner < p) by {
            lemma_survivors_positive(outcomes@, p);
            let j = choose|j: int|
                0 <= j < outcomes@.len() && (#[trigger] outcomes@[j]).attacker == p
                    && outcomes@[j].attacker_remaining > 0;
            assert(outcomes@[j].attacker == p);
        }
    }
    let mut front: Option<usize> = None;
    let mut k: usize = 0;
    while k < outcomes.len()
        invariant
            k <= outcomes.len(),
            match front {
                Some(f) => {
                    &&& f < k
                    &&& outcomes@[f as int].attacker == owner
                    &&& outcomes@[f as int].attacker_remaining > 0
                    &&& forall|j: int|
                        0 <= j < k && (#[trigger] outcomes@[j]).attacker == owner
                            && outcomes@[j].attacker_remaining > 0
                            ==> outcomes@[j].attacker_remaining
                            < outcomes@[f as int].attacker_remaining || (
                        outcomes@[j].attacker_remaining == outcomes@[f as int].attacker_remaining
                            && outcomes@[f as int].id <= outcomes@[j].id)
                },
                None => forall|j: int|
                    0 <= j < k && (#[trigger] outcomes@[j]).attacker == owner
                        ==> outcomes@[j].attacker_remaining == 0,
            },
        decreases outcomes.len() - k,
    {
        if outcomes[k].attacker == owner && outcomes[k].attacker_remaining > 0 {
            let better = match front {
                Some(f) => outcomes[f].attacker_remaining < outcomes[k].attacker_remaining || (
                outcomes[f].attacker_remaining == outcomes[k].attacker_remaining && outcomes[k].id
                    < outcomes[f].id),
                None => true,
            };
            if better {
                front = Some(k);
            }
        }
        k += 1;
    }
    match front {
        Some(f) => (Some(owner), Some(outcomes[f].id)),
        None => {
            assert(false);
            (None, None)
        },
    }
}

/// Applies the documented capture rule to per-front outcomes: largest total
/// surviving offered strength per owner (tie: smaller owner ID), then largest
/// surviving front within that owner (tie: smaller attack ID).
pub fn select_capture(outcomes: &BTreeMap<u64, AttackOutcome>) -> (selected: (
    Option<PlayerId>,
    Option<u64>,
))
    ensures
        captures(listing(outcomes@), selected.0, selected.1),
{
    let ids = sorted_keys(outcomes);
    let mut listed: Vec<AttackOutcome> = Vec::new();
    let mut i: usize = 0;
    while i < ids.len()
        invariant
            i <= ids.len(),
            ids@.to_set() == outcomes@.dom(),
            listed@.len() == i,
            forall|j: int| 0 <= j < i ==> #[trigger] listed@[j] == outcomes@[ids@[j]],
        decreases ids.len() - i,
    {
        let id: u64 = ids[i];
        assert(ids@.contains(id));
        assert(ids@.to_set().contains(id));
        match look(outcomes, id) {
            Some(outcome) => {
                listed.push(*outcome);
            },
            None => {
                assert(false);
            },
        }
        i += 1;
    }
    assert(listed@ =~= listing(outcomes@));
    capture_of(listed.as_slice())
}

/// Whether a resolution is the one that the rules prescribe.
pub open spec fn resolves(
    target: Axial,
    defender_strength: Strength,
    defender_elevation: i16,
    attacks: Seq<AttackFront>,
    config: CombatConfig,
    r: CombatResolution,
) -> bool {
    &&& is_rejection_listing(target, defender_elevation, attacks, config, r.rejected@)
    &&& exists|valid: Seq<AttackFront>| #[trigger]
        is_valid_listing(target, defender_elevation, attacks, config, valid) && resolves_valid(
            defender_strength,
            defender_elevation,
            valid,
            config,
            r,
        )
}

/// Whether a resolution follows from the fronts that take part.
pub open spec fn resolves_valid(
    defender_strength: Strength,
    defender_elevation: i16,
    valid: Seq<AttackFront>,
    config: CombatConfig,
    r: CombatResolution,
) -> bool {
    let outcomes = outcomes_of(valid, defender_strength as int, defender_elevation, config);
    &&& forall|id: u64| #[trigger]
        r.attacks@.contains_key(id) <==> exists|i: int|
            0 <= i < valid.len() && (#[trigger] valid[i]).id == id
    &&& forall|i: int| 0 <= i < valid.len() ==> r.attacks@[(#[trigger] valid[i]).id] == outcomes[i]
    &&& r.defender_initial == defender_strength
    &&& r.defender_casualties == casualties(outcomes)
    &&& r.defender_remaining == defender_strength - casualties(outcomes)
    &&& if r.defender_remaining == 0 {
        captures(outcomes, r.capturing_owner, r.capturing_front)
    } else {
        r.capturing_owner is None && r.capturing_front is None
    }
}

/// A number that orders fronts of one ID by origin, then by attacker.
spec fn origin_rank(from: Axial, attacker: PlayerId) -> int {
    (from.q + 0x8000_0000) * 0x1_0000_0000_0000_0000 + (from.r + 0x8000_0000) * 0x1_0000_0000
        + attacker
}

fn origin_key(from: Axial, attacker: PlayerId) -> (key: u128)
    ensures
        key == origin_rank(from, attacker),
{
    let q: u128 = (from.q as i64 + 0x8000_0000) as u128;
    let r: u128 = (from.r as i64 + 0x8000_0000) as u128;
    q * 0x1_0000_0000_0000_0000 + r * 0x1_0000_0000 + attacker as u128
}

fn has_shared_id(attacks: &[AttackFront], k: usize) -> (shared: bool)
    requires
        k < attacks@.len(),
    ensures
        shared == shares_id(attacks@, k as int),
{
    let mut j: usize = 0;
    while j < attacks.len()
        invariant
            j <= attacks.len(),
            k < attacks@.len(),
            forall|i: int| 0 <= i < j && i != k ==> (#[trigger] attacks@[i]).id != attacks@[k as int].id,
        decreases attacks.len() - j,
    {
        if j != k && attacks[j].id == attacks[k].id {
            assert(attacks@[j as int].id == attacks@[k as int].id);
            return true;
        }
        j += 1;
    }
    false
}

fn has_shared_origin(attacks: &[AttackFront], k: usize) -> (shared: bool)
    requires
        k < attacks@.len(),
    ensures
        shared == shares_origin(attacks@, k as int),
{
    let mut j: usize = 0;
    while j < attacks.len()
        invariant
            j <= attacks.len(),
            k < attacks@.len(),
            forall|i: int|
                0 <= i < j && i != k ==> (#[trigger] attacks@[i]).from != attacks@[k as int].from,
        decreases attacks.len() - j,
    {
        if j != k && attacks[j].from == attacks[k].from {
            assert(attacks@[j as int].from == attacks@[k as int].from);
            return true;
        }
        j += 1;
    }
    false
}

/// Why a front is rejected, if it is.
fn rejection_reason(
    target: Axial,
    defender_elevation: i16,
    attacks: &[AttackFront],
    config: &CombatConfig,
    k: usize,
) -> (reason: Option<FrontRejection>)
    requires
        k < attacks@.len(),
    ensures
        reason == rejection(target, defender_elevation, attacks@, *config, k as int),
{
    let delta: i64 = defender_elevation as i64 - attacks[k].from_elevation as i64;
    if has_shared_id(attacks, k) {
        Some(FrontRejection::DuplicateAttackId)
    } else if has_shared_origin(attacks, k) {
        Some(FrontRejection::DuplicateOrigin)
    } else if target.distance(attacks[k].from) != 1 {
        Some(FrontRejection::NonAdjacent)
    } else if magnitude(delta) > config.max_elevation_step as u64 {
        Some(FrontRejection::ImpassableCliff)
    } else {
        None
    }
}

/// Separates the fronts that take part from the rejected ones.
fn sort_out(
    target: Axial,
    defender_elevation: i16,
    attacks: &[AttackFront],
    config: &CombatConfig,
) -> (parts: (Vec<AttackFront>, Vec<RejectedFront>))
    ensures
        is_valid_listing(target, defender_elevation, attacks@, *config, parts.0@),
        is_rejection_listing(target, defender_elevation, attacks@, *config, parts.1@),
{
    let mut keys: Vec<(u128, u128)> = Vec::new();
    let mut i: usize = 0;
    while i < attacks.len()
        invariant
            i <= attacks.len(),
            keys@.len() == i,
            forall|j: int|
                0 <= j < i ==> (#[trigger] keys@[j]).0 == attacks@[j].id && keys@[j].1
                    == origin_rank(attacks@[j].from, attacks@[j].attacker),
        decreases attacks.len() - i,
    {
        keys.push((attacks[i].id as u128, origin_key(attacks[i].from, attacks[i].attacker)));
        i += 1;
    }
    let order = stable_order(keys.as_slice());
    let ghost a = attacks@;
    let mut valid: Vec<AttackFront> = Vec::new();
    let mut rejected: Vec<RejectedFront> = Vec::new();
    let ghost mut places = Seq::<int>::empty();
    let ghost mut ranks = Seq::<int>::empty();
    let ghost mut chosen = Seq::<int>::empty();
    let mut p: usize = 0;
    while p < order.len()
        invariant
            p <= order.len(),
            a == attacks@,
            keys@.len() == a.len(),
            is_order(keys@, order@),
            forall|j: int|
                0 <= j < a.len() ==> (#[trigger] keys@[j]).0 == a[j].id && keys@[j].1
                    == origin_rank(a[j].from, a[j].attacker),
            places.len() == rejected@.len(),
            ranks.len() == places.len(),
            forall|x: int|
                0 <= x < places.len() ==> 0 <= #[trigger] ranks[x] < p && places[x]
                    == order@[ranks[x]],
            forall|x: int, y: int|
                0 <= x < y < ranks.len() ==> (#[trigger] ranks[x]) < (#[trigger] ranks[y]),
            forall|x: int|
                0 <= x < places.len() ==> {
                    &&& 0 <= #[trigger] places[x] < a.len()
                    &&& rejection(target, defender_elevation, a, *config, places[x]) is Some
                    &&& rejected@[x] == report(
                        a[places[x]],
                        rejection(target, defender_elevation, a, *config, places[x]).unwrap(),
                    )
                },
            chosen.len() == valid@.len(),
            forall|x: int|
                0 <= x < chosen.len() ==> {
                    &&& 0 <= #[trigger] chosen[x] < p
                    &&& valid@[x] == a[order@[chosen[x]] as int]
                    &&& rejection(
                        target,
                        defender_elevation,
                        a,
                        *config,
                        order@[chosen[x]] as int,
                    ) is None
                },
            forall|x: int, y: int|
                0 <= x < y < chosen.len() ==> (#[trigger] chosen[x]) < (#[trigger] chosen[y]),
            forall|b: int|
                0 <= b < p ==> (if rejection(
                    target,
                    defender_elevation,
                    a,
                    *config,
                    #[trigger] order@[b] as int,
                ) is Some {
                    places.contains(order@[b] as int)
                } else {
                    valid@.contains(a[order@[b] as int])
                }),
        decreases order.len() - p,
    {
        let k: usize = order[p];
        let ghost places_was = places;
        let ghost valid_was = valid@;
        match rejection_reason(target, defender_elevation, attacks, config, k) {
            Some(reason) => {
                let front = attacks[k];
                rejected.push(
                    RejectedFront {
                        id: front.id,
                        attacker: front.attacker,
                        from: front.from,
                        reason,
                    },
                );
                proof {
                    places = places.push(k as int);
                    ranks = ranks.push(p as int);
                    assert(places[places_was.len() as int] == k);
                    assert forall|z: int| places_was.contains(z) implies places.contains(z) by {
                        let x = choose|x: int| 0 <= x < places_was.len() && places_was[x] == z;
                        assert(places[x] == z);
                    }
                }
            },
            None => {
                valid.push(attacks[k]);
                proof {
                    chosen = chosen.push(p as int);
                    assert(valid@[valid_was.len() as int] == a[k as int]);
                    assert forall|z: AttackFront| valid_was.contains(z) implies valid@.contains(
                        z,
                    ) by {
                        let x = choose|x: int| 0 <= x < valid_was.len() && valid_was[x] == z;
                        assert(valid@[x] == z);
                    }
                }
            },
        }
        p += 1;
    }
    proof {
        assert forall|k: int|
            0 <= k < a.len() && rejection(
                target,
                defender_elevation,
                a,
                *config,
                k,
            ) is Some implies #[trigger] places.contains(k) by {
            assert(order@.contains(k as usize));
            let b = choose|b: int| 0 <= b < order@.len() && order@[b] == k as usize;
            assert(order@[b] as int == k);
        }
        assert forall|k: int|
            0 <= k < a.len() && rejection(
                target,
                defender_elevation,
                a,
                *config,
                k,
            ) is None implies valid@.contains(#[trigger] a[k]) by {
            assert(order@.contains(k as usize));
            let b = choose|b: int| 0 <= b < order@.len() && order@[b] == k as usize;
            assert(order@[b] as int == k);
        }
        assert forall|i: int, j: int| 0 <= i < j < rejected@.len() implies report_le(
            #[trigger] rejected@[i],
            #[trigger] rejected@[j],
        ) by {
            assert(ranks[i] < ranks[j]);
            assert(key_before(keys@, order@[ranks[i]], order@[ranks[j]]));
            lemma_rank_order(
                a[places[i]].from,
                a[places[i]].attacker,
                a[places[j]].from,
                a[places[j]].attacker,
            );
            assert(places[i] == order@[ranks[i]] && places[j] == order@[ranks[j]]);
        }
        assert(places.no_duplicates()) by {
            crate::order::lemma_order_injective(keys@, order@);
            assert forall|x: int, y: int|
                0 <= x < places.len() && 0 <= y < places.len() && x != y implies places[x]
                != places[y] by {
                assert(ranks[x] != ranks[y]) by {
                    if x < y {
                        assert(ranks[x] < ranks[y]);
                    } else {
                        assert(ranks[y] < ranks[x]);
                    }
                }
                assert(places[x] == order@[ranks[x]] && places[y] == order@[ranks[y]]);
            }
        }
        assert(places.len() == rejected@.len());
        assert forall|i: int, j: int| 0 <= i < j < valid@.len() implies (#[trigger] valid@[i]).id < (
        #[trigger] valid@[j]).id by {
            assert(chosen[i] < chosen[j]);
            let x = order@[chosen[i]];
            let y = order@[chosen[j]];
            assert(key_before(keys@, x, y));
            assert(rejection(target, defender_elevation, a, *config, x as int) is None);
            if a[x as int].id == a[y as int].id {
                assert(x != y);
                assert(a[y as int].id == a[x as int].id);
                assert(shares_id(a, x as int));
            }
        }
        assert forall|i: int| 0 <= i < valid@.len() implies takes_part(
            target,
            defender_elevation,
            a,
            *config,
            #[trigger] valid@[i],
        ) by {
            let k = order@[chosen[i]] as int;
            assert(a[k] == valid@[i]);
        }
    }
    (valid, rejected)
}

proof fn lemma_rank_order(f: Axial, a: PlayerId, g: Axial, b: PlayerId)
    ensures
        origin_rank(f, a) < origin_rank(g, b) ==> axial_lt(f, g) || (f == g && a < b),
        origin_rank(f, a) == origin_rank(g, b) ==> f == g && a == b,
{
}

/// Resolves one edge.
fn resolve_front(
    front: &AttackFront,
    allocated: u64,
    defender_elevation: i16,
    config: &CombatConfig,
) -> (outcome: AttackOutcome)
    ensures
        outcome == outcome_of(*front, allocated as int, defender_elevation, *config),
        outcome.defender_casualties <= allocated,
        outcome.id == front.id,
{
    let engaged: u64 = min_strength(front.offered, front.frontage);
    let uphill = defender_elevation > front.from_elevation;
    let modifier: u32 = if uphill {
        config.uphill_attack_bps
    } else {
        BASIS_POINTS
    };
    let effective_attack: u64 = multiply_bps_floor(engaged, modifier);
    let attacker_casualties: u64 = min_strength(
        engaged,
        multiply_bps_floor(allocated, config.defender_damage_bps),
    );
    let defender_casualties: u64 = min_strength(
        allocated,
        multiply_bps_floor(effective_attack, config.attacker_damage_bps),
    );
    AttackOutcome {
        id: front.id,
        attacker: front.attacker,
        offered: front.offered,
        engaged,
        waiting: front.offered - engaged,
        effective_attack,
        defense_allocated: allocated,
        attacker_casualties,
        defender_casualties,
        attacker_remaining: front.offered - attacker_casualties,
    }
}

/// Resolves one deterministic combat step against a cell.
///
/// - Fronts from **multiple attacking owners** resolve simultaneously.
///   Defenders are allocated across all valid attacking edges regardless of
///   owner: every defender fights at most one edge, allocation is proportional
///   to each edge's engaged strength (largest-remainder rounding), capped by
///   edge frontage, with the attack ID as the deterministic tie-break.
/// - Malformed fronts (duplicate ID, duplicate origin, non-adjacent origin, or
///   an impassable cliff) are reported in [`CombatResolution::rejected`]
///   instead of failing the whole resolution. Every front sharing a duplicated
///   ID or origin is rejected so the outcome cannot depend on slice order.
/// - **Capture rule:** when the defender is eliminated, the attacking owner
///   with the largest total surviving offered strength across its valid fronts
///   wins the capture; ties break toward the smaller owner ID. Within the
///   winning owner, the front with the largest surviving strength is selected;
///   ties break toward the smaller attack ID. Attackers from other owners keep
///   their survivors in place and contest the cell again next step.
pub fn resolve_edge_combat(
    target: Axial,
    defender_strength: Strength,
    defender_elevation: i16,
    attacks: &[AttackFront],
    config: &CombatConfig,
) -> (resolution: Result<CombatResolution, CombatError>)
    ensures
        match resolution {
            Ok(r) => config.uphill_attack_bps <= BASIS_POINTS && resolves(
                target,
                defender_strength,
                defender_elevation,
                attacks@,
                *config,
                r,
            ),
            Err(CombatError::InvalidConfig) => config.uphill_attack_bps > BASIS_POINTS,
        },
{
    if config.uphill_attack_bps > BASIS_POINTS {
        return Err(CombatError::InvalidConfig);
    }
    let (valid, rejected) = sort_out(target, defender_elevation, attacks, config);
    let mut demands: Vec<u64> = Vec::new();
    let mut i: usize = 0;
    while i < valid.len()
        invariant
            i <= valid.len(),
            demands@.len() == i,
            forall|j: int| 0 <= j < i ==> #[trigger] demands@[j] == engaged(valid@[j]),
        decreases valid.len() - i,
    {
        demands.push(min_strength(valid[i].offered, valid[i].frontage));
        i += 1;
    }
    let allocations = proportional_allocation(defender_strength, demands.as_slice());
    let ghost v = valid@;
    let ghost outs = outcomes_of(v, defender_strength as int, defender_elevation, *config);
    let ghost lost = Seq::new(outs.len(), |i: int| outs[i].defender_casualties as int);
    let ghost given = ints(allocations@);
    proof {
        assert(ints(demands@) =~= demands_of(v));
        assert(allocations@.len() == given.len());
        assert(lost.take(0) =~= Seq::empty());
    }
    let mut outcomes: BTreeMap<u64, AttackOutcome> = BTreeMap::new();
    let mut listed: Vec<AttackOutcome> = Vec::new();
    let mut total: u64 = 0;
    let mut k: usize = 0;
    while k < valid.len()
        invariant
            k <= valid.len(),
            v == valid@,
            outs == outcomes_of(v, defender_strength as int, defender_elevation, *config),
            lost == Seq::new(outs.len(), |i: int| outs[i].defender_casualties as int),
            given == ints(allocations@),
            given == defense(defender_strength as int, demands_of(v)),
            sum(given) <= defender_strength,
            allocations@.len() == v.len(),
            forall|i: int, j: int| 0 <= i < j < v.len() ==> (#[trigger] v[i]).id < (#[trigger] v[j]).id,
            total == sum(lost.take(k as int)),
            total <= sum(given.take(k as int)),
            listed@ == outs.take(k as int),
            forall|id: u64| #[trigger]
                outcomes@.contains_key(id) <==> exists|i: int|
                    0 <= i < k && (#[trigger] v[i]).id == id,
            forall|i: int| 0 <= i < k ==> outcomes@[(#[trigger] v[i]).id] == outs[i],
        decreases valid.len() - k,
    {
        let outcome = resolve_front(&valid[k], allocations[k], defender_elevation, config);
        proof {
            assert(given[k as int] == allocations@[k as int]);
            assert(outcome == outs[k as int]);
            assert(lost.take(k + 1).drop_last() =~= lost.take(k as int));
            assert(given.take(k + 1).drop_last() =~= given.take(k as int));
            lemma_sum_bounds(given, k + 1);
            assert(outs.take(k + 1) =~= outs.take(k as int).push(outcome));
        }
        total = total + outcome.defender_casualties;
        listed.push(outcome);
        let ghost was = outcomes@;
        put(&mut outcomes, outcome.id, outcome);
        proof {
            assert forall|id: u64| #[trigger] outcomes@.contains_key(id) <==> exists|i: int|
                0 <= i < k + 1 && (#[trigger] v[i]).id == id by {
                if was.contains_key(id) {
                    let i = choose|i: int| 0 <= i < k && (#[trigger] v[i]).id == id;
                    assert(v[i].id == id);
                }
                if id == outcome.id {
                    assert(v[k as int].id == id);
                }
                if exists|i: int| 0 <= i < k + 1 && (#[trigger] v[i]).id == id {
                    let i = choose|i: int| 0 <= i < k + 1 && (#[trigger] v[i]).id == id;
                    if i < k {
                        assert(was.contains_key(v[i].id));
                    }
                }
            }
            assert forall|i: int| 0 <= i < k + 1 implies outcomes@[(#[trigger] v[i]).id]
                == outs[i] by {
                if i < k {
                    assert(v[i].id < v[k as int].id);
                }
            }
        }
        k += 1;
    }
    proof {
        assert(lost.take(k as int) =~= lost);
        assert(given.take(k as int) =~= given);
        assert(outs.take(k as int) =~= outs);
    }
    let defender_remaining: u64 = defender_strength - total;
    let (capturing_owner, capturing_front) = if defender_remaining == 0 {
        capture_of(listed.as_slice())
    } else {
        (None, None)
    };
    let resolution = CombatResolution {
        defender_initial: defender_strength,
        defender_casualties: total,
        defender_remaining,
        attacks: outcomes,
        rejected,
        capturing_owner,
        capturing_front,
    };
    assert(resolves_valid(defender_strength, defender_elevation, v, *config, resolution));
    Ok(resolution)
}

/// Nobody is lost from the books: the engaged and the waiting make up the
/// offered strength, and so do the casualties and the survivors; no edge kills
/// more defenders than fight on it.
pub proof fn law_fronts_conserve_strength(
    front: AttackFront,
    allocated: u64,
    defender_elevation: i16,
    config: CombatConfig,
)
    ensures
        ({
            let o = outcome_of(front, allocated as int, defender_elevation, config);
            &&& o.engaged + o.waiting == front.offered
            &&& o.attacker_casualties + o.attacker_remaining == front.offered
            &&& o.attacker_casualties <= o.engaged <= front.frontage
            &&& o.defender_casualties <= o.defense_allocated
            &&& o.defense_allocated == allocated
        }),
{
    let e = engaged(front);
    let d = config.defender_damage_bps as int;
    assert(0 <= allocated * d) by (nonlinear_arith)
        requires
            0 <= d,
    ;
    assert(0 <= (allocated * d) / 10_000);
    let m = if defender_elevation > front.from_elevation {
        config.uphill_attack_bps as int
    } else {
        10_000
    };
    assert(0 <= e * m) by (nonlinear_arith)
        requires
            0 <= e,
            0 <= m,
    ;
    let f = scaled(e, m);
    let x = config.attacker_damage_bps as int;
    assert(0 <= f * x) by (nonlinear_arith)
        requires
            0 <= f,
            0 <= x,
    ;
}

/// Every defender fights on at most one edge: the allocations of all edges
/// together never exceed the defenders.
pub proof fn law_defenders_are_never_duplicated(available: int, demands: Seq<int>)
    requires
        0 <= available,
        forall|i: int| 0 <= i < demands.len() ==> 0 <= #[trigger] demands[i],
    ensures
        sum(defense(available, demands)) <= available,
        forall|i: int|
            0 <= i < demands.len() ==> 0 <= #[trigger] defense(available, demands)[i] <= demands[i],
{
    lemma_sum_bounds(demands, 0);
    if available == 0 || sum(demands) == 0 {
        crate::order::lemma_sum_zeros(defense(available, demands));
    } else {
        let amount = least(available, sum(demands));
        crate::apportion::lemma_apportioned_sum(amount, demands);
        assert forall|i: int| 0 <= i < demands.len() implies 0 <= #[trigger] defense(
            available,
            demands,
        )[i] <= demands[i] by {
            lemma_share_within(amount, demands, i);
        }
    }
}

/// The fronts that take part are determined by the list.
pub proof fn law_valid_listing_is_unique(
    target: Axial,
    defender_elevation: i16,
    attacks: Seq<AttackFront>,
    config: CombatConfig,
    s: Seq<AttackFront>,
    t: Seq<AttackFront>,
)
    requires
        is_valid_listing(target, defender_elevation, attacks, config, s),
        is_valid_listing(target, defender_elevation, attacks, config, t),
    ensures
        s == t,
{
    let ids_s = s.map_values(|f: AttackFront| f.id);
    let ids_t = t.map_values(|f: AttackFront| f.id);
    assert(ids_ascending(ids_s));
    assert(ids_ascending(ids_t));
    assert forall|i: int| 0 <= i < s.len() implies t.contains(#[trigger] s[i]) by {
        assert(takes_part(target, defender_elevation, attacks, config, s[i]));
        let k = choose|k: int|
            0 <= k < attacks.len() && #[trigger] attacks[k] == s[i] && rejection(
                target,
                defender_elevation,
                attacks,
                config,
                k,
            ) is None;
        assert(t.contains(attacks[k]));
    }
    assert forall|i: int| 0 <= i < t.len() implies s.contains(#[trigger] t[i]) by {
        assert(takes_part(target, defender_elevation, attacks, config, t[i]));
        let k = choose|k: int|
            0 <= k < attacks.len() && #[trigger] attacks[k] == t[i] && rejection(
                target,
                defender_elevation,
                attacks,
                config,
                k,
            ) is None;
        assert(s.contains(attacks[k]));
    }
    assert forall|x: u64| ids_s.to_set().contains(x) <==> ids_t.to_set().contains(x) by {
        if ids_s.contains(x) {
            let i = choose|i: int| 0 <= i < ids_s.len() && ids_s[i] == x;
            assert(t.contains(s[i]));
            let j = choose|j: int| 0 <= j < t.len() && t[j] == s[i];
            assert(ids_t[j] == x);
        }
        if ids_t.contains(x) {
            let i = choose|i: int| 0 <= i < ids_t.len() && ids_t[i] == x;
            assert(s.contains(t[i]));
            let j = choose|j: int| 0 <= j < s.len() && s[j] == t[i];
            assert(ids_s[j] == x);
        }
    }
    assert(ids_s.to_set() =~= ids_t.to_set());
    crate::order::lemma_ids_unique(ids_s, ids_t);
    assert(s.len() == ids_s.len() && t.len() == ids_t.len());
    assert forall|i: int| 0 <= i < s.len() implies s[i] == t[i] by {
        assert(ids_s[i] == ids_t[i]);
        assert(t.contains(s[i]));
        let j = choose|j: int| 0 <= j < t.len() && t[j] == s[i];
        if j < i {
            assert(t[j].id < t[i].id);
        } else if j > i {
            assert(t[i].id < t[j].id);
        }
    }
    assert(s =~= t);
}

/// Whether one list holds the fronts of another in another order: `places`
/// says where each front comes from.
pub open spec fn is_rearranged(s: Seq<AttackFront>, t: Seq<AttackFront>, places: Seq<int>) -> bool {
    &&& s.len() == t.len() == places.len()
    &&& places.no_duplicates()
    &&& forall|i: int| 0 <= i < t.len() ==> 0 <= #[trigger] places[i] < s.len() && t[i] == s[places[i]]
    &&& forall|k: int| 0 <= k < s.len() ==> #[trigger] places.contains(k)
}

/// The resolution does not depend on the order of the attack list.
pub proof fn law_resolution_ignores_list_order(
    target: Axial,
    defender_strength: Strength,
    defender_elevation: i16,
    attacks: Seq<AttackFront>,
    rearranged: Seq<AttackFront>,
    places: Seq<int>,
    config: CombatConfig,
    r: CombatResolution,
)
    requires
        is_rearranged(attacks, rearranged, places),
        resolves(target, defender_strength, defender_elevation, attacks, config, r),
    ensures
        resolves(target, defender_strength, defender_elevation, rearranged, config, r),
{
    assert forall|i: int| 0 <= i < rearranged.len() implies #[trigger] rejection(
        target,
        defender_elevation,
        rearranged,
        config,
        i,
    ) == rejection(target, defender_elevation, attacks, config, places[i]) by {
        lemma_rearranged_rejection(target, defender_elevation, attacks, rearranged, places, config, i);
    }
    let valid = choose|valid: Seq<AttackFront>| #[trigger]
        is_valid_listing(target, defender_elevation, attacks, config, valid) && resolves_valid(
            defender_strength,
            defender_elevation,
            valid,
            config,
            r,
        );
    assert(is_valid_listing(target, defender_elevation, rearranged, config, valid)) by {
        assert forall|i: int| 0 <= i < valid.len() implies takes_part(
            target,
            defender_elevation,
            rearranged,
            config,
            #[trigger] valid[i],
        ) by {
            assert(takes_part(target, defender_elevation, attacks, config, valid[i]));
            let k = choose|k: int|
                0 <= k < attacks.len() && #[trigger] attacks[k] == valid[i] && rejection(
                    target,
                    defender_elevation,
                    attacks,
                    config,
                    k,
                ) is None;
            assert(places.contains(k));
            let j = choose|j: int| 0 <= j < places.len() && places[j] == k;
            assert(rearranged[j] == valid[i]);
            assert(rejection(target, defender_elevation, rearranged, config, j) is None);
        }
        assert forall|k: int|
            0 <= k < rearranged.len() && rejection(
                target,
                defender_elevation,
                rearranged,
                config,
                k,
            ) is None implies valid.contains(#[trigger] rearranged[k]) by {
            assert(attacks[places[k]] == rearranged[k]);
        }
    }
    let listed = choose|listed: Seq<int>|
        {
            &&& #[trigger] listed.len() == r.rejected@.len()
            &&& listed.no_duplicates()
            &&& forall|i: int|
                0 <= i < listed.len() ==> {
                    &&& 0 <= #[trigger] listed[i] < attacks.len()
                    &&& rejection(target, defender_elevation, attacks, config, listed[i]) is Some
                    &&& r.rejected@[i] == report(
                        attacks[listed[i]],
                        rejection(
                            target,
                            defender_elevation,
                            attacks,
                            config,
                            listed[i],
                        ).unwrap(),
                    )
                }
            &&& forall|k: int|
                0 <= k < attacks.len() && rejection(
                    target,
                    defender_elevation,
                    attacks,
                    config,
                    k,
                ) is Some ==> #[trigger] listed.contains(k)
        };
    // Where a front of the first list stands in the second.
    let moved = Seq::new(
        listed.len(),
        |i: int| choose|j: int| 0 <= j < places.len() && places[j] == listed[i],
    );
    assert forall|i: int| 0 <= i < moved.len() implies 0 <= #[trigger] moved[i] < rearranged.len()
        && places[moved[i]] == listed[i] by {
        assert(0 <= listed[i] < attacks.len());
        assert(places.contains(listed[i]));
    }
    assert(moved.no_duplicates()) by {
        assert forall|x: int, y: int|
            0 <= x < moved.len() && 0 <= y < moved.len() && x != y implies moved[x] != moved[y] by {
            assert(places[moved[x]] == listed[x]);
            assert(places[moved[y]] == listed[y]);
        }
    }
    assert forall|k: int|
        0 <= k < rearranged.len() && rejection(
            target,
            defender_elevation,
            rearranged,
            config,
            k,
        ) is Some implies #[trigger] moved.contains(k) by {
        assert(0 <= places[k] < attacks.len());
        assert(listed.contains(places[k]));
        let i = choose|i: int| 0 <= i < listed.len() && listed[i] == places[k];
        assert(places[moved[i]] == places[k]);
        assert(moved[i] == k);
    }
    assert forall|i: int| 0 <= i < moved.len() implies {
        &&& 0 <= #[trigger] moved[i] < rearranged.len()
        &&& rejection(target, defender_elevation, rearranged, config, moved[i]) is Some
        &&& r.rejected@[i] == report(
            rearranged[moved[i]],
            rejection(target, defender_elevation, rearranged, config, moved[i]).unwrap(),
        )
    } by {
        assert(0 <= listed[i] < attacks.len());
        assert(places[moved[i]] == listed[i]);
    }
    assert(moved.len() == r.rejected@.len());
}

proof fn lemma_rearranged_rejection(
    target: Axial,
    defender_elevation: i16,
    attacks: Seq<AttackFront>,
    rearranged: Seq<AttackFront>,
    places: Seq<int>,
    config: CombatConfig,
    i: int,
)
    requires
        is_rearranged(attacks, rearranged, places),
        0 <= i < rearranged.len(),
    ensures
        rejection(target, defender_elevation, rearranged, config, i) == rejection(
            target,
            defender_elevation,
            attacks,
            config,
            places[i],
        ),
{
    let k = places[i];
    if shares_id(rearranged, i) {
        let j = choose|j: int|
            0 <= j < rearranged.len() && j != i && (#[trigger] rearranged[j]).id == rearranged[i].id;
        assert(attacks[places[j]].id == attacks[k].id);
        assert(places[j] != k);
    }
    if shares_id(attacks, k) {
        let j = choose|j: int|
            0 <= j < attacks.len() && j != k && (#[trigger] attacks[j]).id == attacks[k].id;
        assert(places.contains(j));
        let x = choose|x: int| 0 <= x < places.len() && places[x] == j;
        assert(rearranged[x].id == rearranged[i].id);
    }
    if shares_origin(rearranged, i) {
        let j = choose|j: int|
            0 <= j < rearranged.len() && j != i && (#[trigger] rearranged[j]).from
                == rearranged[i].from;
        assert(attacks[places[j]].from == attacks[k].from);
        assert(places[j] != k);
    }
    if shares_origin(attacks, k) {
        let j = choose|j: int|
            0 <= j < attacks.len() && j != k && (#[trigger] attacks[j]).from == attacks[k].from;
        assert(places.contains(j));
        let x = choose|x: int| 0 <= x < places.len() && places[x] == j;
        assert(rearranged[x].from == rearranged[i].from);
    }
}

} // verus!
