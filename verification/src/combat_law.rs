//! What a combat step means, said of the fronts and the resolution themselves.
use vstd::prelude::*;
use crate::combat::{
    captures, defense, demands_of, engaged, is_valid_listing, law_defenders_are_never_duplicated,
    outcome_of, outcomes_of, rejection, resolves, resolves_valid, scaled, survivors_of, takes_part,
    AttackFront, AttackOutcome, CombatConfig, CombatResolution, FrontRejection,
};
use crate::coord::{hex_distance, Axial};
use crate::map::{PlayerId, Strength};
use crate::order::{lemma_sum_bounds, sum};
use crate::share_law::{law_greater_scores_get_no_less, law_shares_follow_the_scores};

verus! {

/// Whether a front of a list can fight: no other front has its ID or its origin,
/// it comes from a neighbouring cell, and no cliff lies in between.
pub open spec fn can_fight(
    target: Axial,
    defender_elevation: i16,
    attacks: Seq<AttackFront>,
    max_elevation_step: u16,
    k: int,
) -> bool {
    &&& 0 <= k < attacks.len()
    &&& forall|j: int|
        0 <= j < attacks.len() && j != k ==> (#[trigger] attacks[j]).id != attacks[k].id
            && attacks[j].from != attacks[k].from
    &&& hex_distance(target, attacks[k].from) == 1
    &&& defender_elevation - attacks[k].from_elevation <= max_elevation_step
    &&& attacks[k].from_elevation - defender_elevation <= max_elevation_step
}

proof fn lemma_can_fight(
    target: Axial,
    defender_elevation: i16,
    attacks: Seq<AttackFront>,
    config: CombatConfig,
    k: int,
)
    requires
        0 <= k < attacks.len(),
    ensures
        can_fight(target, defender_elevation, attacks, config.max_elevation_step, k) <==> rejection(
            target,
            defender_elevation,
            attacks,
            config,
            k,
        ) is None,
{
}

/// The listing of the fronts that fight, and the place of one of them.
proof fn lemma_fighting_front(
    target: Axial,
    defender_strength: Strength,
    defender_elevation: i16,
    attacks: Seq<AttackFront>,
    config: CombatConfig,
    r: CombatResolution,
    k: int,
) -> (found: (Seq<AttackFront>, int))
    requires
        resolves(target, defender_strength, defender_elevation, attacks, config, r),
        can_fight(target, defender_elevation, attacks, config.max_elevation_step, k),
    ensures
        is_valid_listing(target, defender_elevation, attacks, config, found.0),
        resolves_valid(defender_strength, defender_elevation, found.0, config, r),
        0 <= found.1 < found.0.len(),
        found.0[found.1] == attacks[k],
        r.attacks@.contains_key(attacks[k].id),
        r.attacks@[attacks[k].id] == outcome_of(
            attacks[k],
            defense(defender_strength as int, demands_of(found.0))[found.1],
            defender_elevation,
            config,
        ),
        0 <= defense(defender_strength as int, demands_of(found.0))[found.1] <= engaged(attacks[k]),
{
    let valid = choose|valid: Seq<AttackFront>| #[trigger]
        is_valid_listing(target, defender_elevation, attacks, config, valid) && resolves_valid(
            defender_strength,
            defender_elevation,
            valid,
            config,
            r,
        );
    lemma_can_fight(target, defender_elevation, attacks, config, k);
    assert(valid.contains(attacks[k]));
    let i = choose|i: int| 0 <= i < valid.len() && valid[i] == attacks[k];
    let outcomes = outcomes_of(valid, defender_strength as int, defender_elevation, config);
    assert(r.attacks@[valid[i].id] == outcomes[i]);
    assert(r.attacks@.contains_key(valid[i].id));
    law_defenders_are_never_duplicated(defender_strength as int, demands_of(valid));
    assert(demands_of(valid)[i] == engaged(valid[i]));
    assert(0 <= defense(defender_strength as int, demands_of(valid))[i] <= demands_of(valid)[i]);
    (valid, i)
}

/// A number of basis points of a value, rounded down: the product with ten
/// thousand brackets it.
proof fn lemma_scaled(value: int, bps: int)
    requires
        0 <= value <= u64::MAX,
        0 <= bps,
    ensures
        0 <= scaled(value, bps) <= u64::MAX,
        scaled(value, bps) * 10_000 <= value * bps,
        scaled(value, bps) == u64::MAX || value * bps < (scaled(value, bps) + 1) * 10_000,
        bps == 10_000 ==> scaled(value, bps) == value,
        bps <= 10_000 ==> scaled(value, bps) <= value && value * bps < (scaled(value, bps) + 1)
            * 10_000,
{
    let p = value * bps;
    assert(0 <= p) by (nonlinear_arith)
        requires
            p == value * bps,
            0 <= value,
            0 <= bps,
    ;
    if bps <= 10_000 {
        assert(p <= value * 10_000) by (nonlinear_arith)
            requires
                p == value * bps,
                0 <= value,
                bps <= 10_000,
        ;
    }
}

/// What a front does. As much of it is engaged as fits on its edge, and the rest
/// waits. Only uphill is the engaged strength reduced, to its share in basis
/// points, rounded down; on the level and downhill it attacks in full, whatever
/// the uphill share is. No more defenders stand against it than it engages. They
/// kill their number in the defenders' damage, but no more than are engaged; the
/// attack kills its number in the attackers' damage, but no more than stand against
/// it. Both are rounded down. What is not killed remains.
pub proof fn law_only_uphill_attacks_are_weakened(
    target: Axial,
    defender_strength: Strength,
    defender_elevation: i16,
    attacks: Seq<AttackFront>,
    config: CombatConfig,
    r: CombatResolution,
    k: int,
)
    requires
        config.uphill_attack_bps <= 10_000,
        resolves(target, defender_strength, defender_elevation, attacks, config, r),
        can_fight(target, defender_elevation, attacks, config.max_elevation_step, k),
    ensures
        r.attacks@.contains_key(attacks[k].id),
        ({
            let front = attacks[k];
            let o = r.attacks@[front.id];
            &&& o.id == front.id
            &&& o.attacker == front.attacker
            &&& o.offered == front.offered
            &&& o.engaged <= front.offered && o.engaged <= front.frontage
            &&& o.engaged == front.offered || o.engaged == front.frontage
            &&& o.engaged + o.waiting == front.offered
            &&& front.from_elevation >= defender_elevation ==> o.effective_attack == o.engaged
            &&& defender_elevation > front.from_elevation ==> o.effective_attack * 10_000
                <= o.engaged * config.uphill_attack_bps < (o.effective_attack + 1) * 10_000
            &&& o.defense_allocated <= o.engaged
            &&& o.attacker_casualties <= o.engaged
            &&& o.attacker_casualties * 10_000 <= o.defense_allocated * config.defender_damage_bps
            &&& o.attacker_casualties < o.engaged ==> o.defense_allocated
                * config.defender_damage_bps < (o.attacker_casualties + 1) * 10_000
            &&& o.defender_casualties <= o.defense_allocated
            &&& o.defender_casualties * 10_000 <= o.effective_attack * config.attacker_damage_bps
            &&& o.defender_casualties < o.defense_allocated ==> o.effective_attack
                * config.attacker_damage_bps < (o.defender_casualties + 1) * 10_000
            &&& o.attacker_casualties + o.attacker_remaining == front.offered
        }),
{
    let front = attacks[k];
    let (valid, i) = lemma_fighting_front(
        target,
        defender_strength,
        defender_elevation,
        attacks,
        config,
        r,
        k,
    );
    let given = defense(defender_strength as int, demands_of(valid))[i];
    let e = engaged(front);
    lemma_scaled(e, config.uphill_attack_bps as int);
    lemma_scaled(e, 10_000);
    lemma_scaled(given, config.defender_damage_bps as int);
    let o = r.attacks@[front.id];
    lemma_scaled(o.effective_attack as int, config.attacker_damage_bps as int);
}

/// The fronts that fight and those that are reported as rejected make up the list:
/// there is an outcome for an ID exactly where a front with it can fight.
pub proof fn law_only_sound_fronts_fight(
    target: Axial,
    defender_strength: Strength,
    defender_elevation: i16,
    attacks: Seq<AttackFront>,
    config: CombatConfig,
    r: CombatResolution,
    id: u64,
)
    requires
        resolves(target, defender_strength, defender_elevation, attacks, config, r),
    ensures
        r.attacks@.contains_key(id) <==> exists|k: int|
            #![trigger attacks[k]]
            can_fight(target, defender_elevation, attacks, config.max_elevation_step, k)
                && attacks[k].id == id,
{
    let valid = choose|valid: Seq<AttackFront>| #[trigger]
        is_valid_listing(target, defender_elevation, attacks, config, valid) && resolves_valid(
            defender_strength,
            defender_elevation,
            valid,
            config,
            r,
        );
    if r.attacks@.contains_key(id) {
        let i = choose|i: int| 0 <= i < valid.len() && (#[trigger] valid[i]).id == id;
        assert(takes_part(target, defender_elevation, attacks, config, valid[i]));
        let k = choose|k: int|
            0 <= k < attacks.len() && #[trigger] attacks[k] == valid[i] && rejection(
                target,
                defender_elevation,
                attacks,
                config,
                k,
            ) is None;
        lemma_can_fight(target, defender_elevation, attacks, config, k);
        assert(attacks[k].id == id);
    }
    if exists|k: int|
        #![trigger attacks[k]]
        can_fight(target, defender_elevation, attacks, config.max_elevation_step, k)
            && attacks[k].id == id {
        let k = choose|k: int|
            #![trigger attacks[k]]
            can_fight(target, defender_elevation, attacks, config.max_elevation_step, k)
                && attacks[k].id == id;
        let (v, i) = lemma_fighting_front(
            target,
            defender_strength,
            defender_elevation,
            attacks,
            config,
            r,
            k,
        );
    }
}

/// Every front that cannot fight is reported, with what is wrong with it: a shared
/// ID before a shared origin, that before the distance, that before a cliff. And
/// nothing else is reported: each report is on a front of the list that cannot
/// fight.
pub proof fn law_rejections_tell_why(
    target: Axial,
    defender_strength: Strength,
    defender_elevation: i16,
    attacks: Seq<AttackFront>,
    config: CombatConfig,
    r: CombatResolution,
    k: int,
)
    requires
        resolves(target, defender_strength, defender_elevation, attacks, config, r),
        0 <= k < attacks.len(),
        !can_fight(target, defender_elevation, attacks, config.max_elevation_step, k),
    ensures
        exists|x: int|
            #![trigger r.rejected@[x]]
            0 <= x < r.rejected@.len() && {
                let told = r.rejected@[x];
                let twice = exists|j: int|
                    0 <= j < attacks.len() && j != k && (#[trigger] attacks[j]).id
                        == attacks[k].id;
                let beside = exists|j: int|
                    0 <= j < attacks.len() && j != k && (#[trigger] attacks[j]).from
                        == attacks[k].from;
                let near = hex_distance(target, attacks[k].from) == 1;
                &&& told.id == attacks[k].id
                &&& told.attacker == attacks[k].attacker
                &&& told.from == attacks[k].from
                &&& told.reason == FrontRejection::DuplicateAttackId <==> twice
                &&& told.reason == FrontRejection::DuplicateOrigin <==> !twice && beside
                &&& told.reason == FrontRejection::NonAdjacent <==> !twice && !beside && !near
                &&& told.reason == FrontRejection::ImpassableCliff <==> !twice && !beside && near
            },
{
    lemma_can_fight(target, defender_elevation, attacks, config, k);
    let places = choose|places: Seq<int>|
        {
            &&& #[trigger] places.len() == r.rejected@.len()
            &&& places.no_duplicates()
            &&& forall|i: int|
                0 <= i < places.len() ==> {
                    &&& 0 <= #[trigger] places[i] < attacks.len()
                    &&& rejection(target, defender_elevation, attacks, config, places[i]) is Some
                    &&& r.rejected@[i] == crate::combat::report(
                        attacks[places[i]],
                        rejection(
                            target,
                            defender_elevation,
                            attacks,
                            config,
                            places[i],
                        ).unwrap(),
                    )
                }
            &&& forall|k: int|
                0 <= k < attacks.len() && rejection(
                    target,
                    defender_elevation,
                    attacks,
                    config,
                    k,
                ) is Some ==> #[trigger] places.contains(k)
        };
    assert(places.contains(k));
    let x = choose|x: int| 0 <= x < places.len() && places[x] == k;
    assert(places[x] == k);
    assert(r.rejected@[x] == crate::combat::report(
        attacks[k],
        rejection(target, defender_elevation, attacks, config, k).unwrap(),
    ));
}

/// Reports are on fronts that cannot fight, one for each, in the order of their
/// IDs, then of their origins and attackers.
pub proof fn law_only_unsound_fronts_are_rejected(
    target: Axial,
    defender_strength: Strength,
    defender_elevation: i16,
    attacks: Seq<AttackFront>,
    config: CombatConfig,
    r: CombatResolution,
    x: int,
)
    requires
        resolves(target, defender_strength, defender_elevation, attacks, config, r),
        0 <= x < r.rejected@.len(),
    ensures
        exists|k: int|
            #![trigger attacks[k]]
            0 <= k < attacks.len() && !can_fight(
                target,
                defender_elevation,
                attacks,
                config.max_elevation_step,
                k,
            ) && attacks[k].id == r.rejected@[x].id && attacks[k].from == r.rejected@[x].from,
        r.rejected@.len() <= attacks.len(),
        forall|y: int|
            0 <= y < x ==> {
                let a = #[trigger] r.rejected@[y];
                let b = r.rejected@[x];
                ||| a.id < b.id
                ||| a.id == b.id && a.from.q < b.from.q
                ||| a.id == b.id && a.from.q == b.from.q && a.from.r < b.from.r
                ||| a.id == b.id && a.from == b.from && a.attacker <= b.attacker
            },
{
    let places = choose|places: Seq<int>|
        {
            &&& #[trigger] places.len() == r.rejected@.len()
            &&& places.no_duplicates()
            &&& forall|i: int|
                0 <= i < places.len() ==> {
                    &&& 0 <= #[trigger] places[i] < attacks.len()
                    &&& rejection(target, defender_elevation, attacks, config, places[i]) is Some
                    &&& r.rejected@[i] == crate::combat::report(
                        attacks[places[i]],
                        rejection(
                            target,
                            defender_elevation,
                            attacks,
                            config,
                            places[i],
                        ).unwrap(),
                    )
                }
            &&& forall|k: int|
                0 <= k < attacks.len() && rejection(
                    target,
                    defender_elevation,
                    attacks,
                    config,
                    k,
                ) is Some ==> #[trigger] places.contains(k)
        };
    let k = places[x];
    lemma_can_fight(target, defender_elevation, attacks, config, k);
    assert(attacks[k].id == r.rejected@[x].id);
    assert forall|y: int| 0 <= y < x implies (#[trigger] r.rejected@[y]).id
        <= r.rejected@[x].id by {
        assert(crate::combat::report_le(r.rejected@[y], r.rejected@[x]));
    }
    let range = vstd::set_lib::set_int_range(0, attacks.len() as int);
    vstd::set_lib::lemma_int_range(0, attacks.len() as int);
    places.unique_seq_to_set();
    assert(places.to_set().subset_of(range)) by {
        assert forall|z: int| places.to_set().contains(z) implies range.contains(z) by {
            let i = choose|i: int| 0 <= i < places.len() && places[i] == z;
            assert(0 <= places[i] < attacks.len());
        }
    }
    vstd::set_lib::lemma_len_subset(places.to_set(), range);
}

/// The defenders are divided in proportion to the engaged strength of the fronts,
/// up to one each. A front that engages more never meets fewer, and of two that
/// engage the same the one with the smaller ID meets as many as the other or one
/// more.
pub proof fn law_defenders_go_where_the_attack_is(
    target: Axial,
    defender_strength: Strength,
    defender_elevation: i16,
    attacks: Seq<AttackFront>,
    config: CombatConfig,
    r: CombatResolution,
    k: int,
    l: int,
)
    requires
        resolves(target, defender_strength, defender_elevation, attacks, config, r),
        can_fight(target, defender_elevation, attacks, config.max_elevation_step, k),
        can_fight(target, defender_elevation, attacks, config.max_elevation_step, l),
        k != l,
    ensures
        ({
            let a = r.attacks@[attacks[k].id];
            let b = r.attacks@[attacks[l].id];
            &&& a.engaged + b.engaged > 0 ==> a.defense_allocated * b.engaged < b.defense_allocated
                * a.engaged + a.engaged + b.engaged
            &&& a.engaged > b.engaged ==> a.defense_allocated >= b.defense_allocated
            &&& a.engaged == b.engaged && a.id < b.id ==> b.defense_allocated <= a.defense_allocated
                <= b.defense_allocated + 1
        }),
{
    let (valid, i) = lemma_fighting_front(
        target,
        defender_strength,
        defender_elevation,
        attacks,
        config,
        r,
        k,
    );
    let (valid2, j) = lemma_fighting_front(
        target,
        defender_strength,
        defender_elevation,
        attacks,
        config,
        r,
        l,
    );
    crate::combat::law_valid_listing_is_unique(
        target,
        defender_elevation,
        attacks,
        config,
        valid,
        valid2,
    );
    let d = demands_of(valid);
    assert(d[i] == engaged(attacks[k]) && d[j] == engaged(attacks[l]));
    lemma_sum_bounds(d, 0);
    if attacks[k].id < attacks[l].id {
        if j <= i {
            if j < i {
                assert(valid[j].id < valid[i].id);
            }
        }
        assert(i < j);
    }
    if defender_strength > 0 && sum(d) > 0 {
        let amount = crate::combat::least(defender_strength as int, sum(d));
        if d[i] + d[j] > 0 {
            law_shares_follow_the_scores(amount, d, i, j);
        }
        if d[i] > d[j] || (d[i] == d[j] && i < j) {
            law_greater_scores_get_no_less(amount, d, i, j);
        }
    }
}

/// Whether these are the IDs of some outcomes, each once and in ascending order.
pub open spec fn are_ids(ids: Seq<u64>, outcomes: Map<u64, AttackOutcome>) -> bool {
    &&& forall|i: int, j: int| 0 <= i < j < ids.len() ==> (#[trigger] ids[i]) < (#[trigger] ids[j])
    &&& forall|id: u64| #[trigger] outcomes.contains_key(id) <==> ids.contains(id)
}

proof fn lemma_are_ids(ids: Seq<u64>, outcomes: Map<u64, AttackOutcome>)
    requires
        are_ids(ids, outcomes),
    ensures
        crate::order::ordered_ids(outcomes.dom()) == ids,
        crate::combat::listing(outcomes) == Seq::new(ids.len(), |i: int| outcomes[ids[i]]),
{
    assert(ids.to_set() =~= outcomes.dom());
    assert(crate::order::ids_ascending(ids));
    let other = crate::order::ordered_ids(outcomes.dom());
    crate::order::lemma_ids_unique(ids, other);
    assert(crate::combat::listing(outcomes) =~= Seq::new(ids.len(), |i: int| outcomes[ids[i]]));
}

/// The outcomes of the fronts that fight are those of the resolution.
proof fn lemma_outcomes_are_listed(
    target: Axial,
    defender_strength: Strength,
    defender_elevation: i16,
    attacks: Seq<AttackFront>,
    config: CombatConfig,
    r: CombatResolution,
    ids: Seq<u64>,
) -> (valid: Seq<AttackFront>)
    requires
        resolves(target, defender_strength, defender_elevation, attacks, config, r),
        are_ids(ids, r.attacks@),
    ensures
        is_valid_listing(target, defender_elevation, attacks, config, valid),
        resolves_valid(defender_strength, defender_elevation, valid, config, r),
        valid.len() == ids.len(),
        outcomes_of(valid, defender_strength as int, defender_elevation, config) == Seq::new(
            ids.len(),
            |i: int| r.attacks@[ids[i]],
        ),
{
    let valid = choose|valid: Seq<AttackFront>| #[trigger]
        is_valid_listing(target, defender_elevation, attacks, config, valid) && resolves_valid(
            defender_strength,
            defender_elevation,
            valid,
            config,
            r,
        );
    let own = valid.map_values(|f: AttackFront| f.id);
    assert forall|id: u64| own.contains(id) <==> ids.contains(id) by {
        assert(r.attacks@.contains_key(id) <==> ids.contains(id));
        if own.contains(id) {
            let i = choose|i: int| 0 <= i < own.len() && own[i] == id;
            assert(valid[i].id == id);
        }
        if r.attacks@.contains_key(id) {
            let i = choose|i: int| 0 <= i < valid.len() && (#[trigger] valid[i]).id == id;
            assert(own[i] == id);
        }
    }
    assert(own.to_set() =~= ids.to_set());
    crate::order::lemma_ids_unique(own, ids);
    assert(outcomes_of(valid, defender_strength as int, defender_elevation, config) =~= Seq::new(
        ids.len(),
        |i: int| r.attacks@[ids[i]],
    )) by {
        assert forall|i: int| 0 <= i < ids.len() implies r.attacks@[ids[i]] == outcomes_of(
            valid,
            defender_strength as int,
            defender_elevation,
            config,
        )[i] by {
            assert(own[i] == valid[i].id);
        }
    }
    valid
}

/// The defenders are accounted for: as many fight as are there or are attacked,
/// whichever is less, and those that fall on the edges are lost and no others.
pub proof fn law_defenders_are_accounted_for(
    target: Axial,
    defender_strength: Strength,
    defender_elevation: i16,
    attacks: Seq<AttackFront>,
    config: CombatConfig,
    r: CombatResolution,
    ids: Seq<u64>,
)
    requires
        resolves(target, defender_strength, defender_elevation, attacks, config, r),
        are_ids(ids, r.attacks@),
    ensures
        r.defender_initial == defender_strength,
        r.defender_casualties == sum(
            Seq::new(ids.len(), |i: int| r.attacks@[ids[i]].defender_casualties as int),
        ),
        r.defender_casualties + r.defender_remaining == defender_strength,
        ({
            let fighting = sum(
                Seq::new(ids.len(), |i: int| r.attacks@[ids[i]].defense_allocated as int),
            );
            let attacking = sum(Seq::new(ids.len(), |i: int| r.attacks@[ids[i]].engaged as int));
            &&& fighting <= defender_strength
            &&& fighting <= attacking
            &&& fighting == defender_strength || fighting == attacking
        }),
{
    let valid = lemma_outcomes_are_listed(
        target,
        defender_strength,
        defender_elevation,
        attacks,
        config,
        r,
        ids,
    );
    let outs = outcomes_of(valid, defender_strength as int, defender_elevation, config);
    assert(Seq::new(outs.len(), |i: int| outs[i].defender_casualties as int) =~= Seq::new(
        ids.len(),
        |i: int| r.attacks@[ids[i]].defender_casualties as int,
    ));
    let d = demands_of(valid);
    let given = defense(defender_strength as int, d);
    law_defenders_are_never_duplicated(defender_strength as int, d);
    assert forall|i: int| 0 <= i < ids.len() implies outs[i].defense_allocated == given[i]
        && outs[i].engaged == d[i] by {
        assert(0 <= given[i] <= d[i]);
    }
    assert(Seq::new(ids.len(), |i: int| r.attacks@[ids[i]].defense_allocated as int) =~= given) by {
        assert forall|i: int| 0 <= i < ids.len() implies r.attacks@[ids[i]].defense_allocated
            == given[i] by {
            assert(outs[i] == r.attacks@[ids[i]]);
        }
    }
    assert(Seq::new(ids.len(), |i: int| r.attacks@[ids[i]].engaged as int) =~= d) by {
        assert forall|i: int| 0 <= i < ids.len() implies r.attacks@[ids[i]].engaged == d[i] by {
            assert(outs[i] == r.attacks@[ids[i]]);
        }
    }
    lemma_sum_bounds(d, 0);
    if defender_strength == 0 || sum(d) == 0 {
        crate::order::lemma_sum_zeros(given);
    } else {
        crate::apportion::lemma_apportioned_sum(
            crate::combat::least(defender_strength as int, sum(d)),
            d,
        );
    }
}

/// Who takes a cell: the owner whose fronts together have the most survivors, and
/// of owners with the same the one with the smaller number; of that owner's fronts
/// the one with the most survivors, and of such fronts the one with the smaller ID.
/// Where nobody survives, nobody takes it.
pub proof fn law_capture_goes_to_the_strongest(
    outcomes: Map<u64, AttackOutcome>,
    ids: Seq<u64>,
    owner: Option<PlayerId>,
    front: Option<u64>,
)
    requires
        are_ids(ids, outcomes),
        forall|i: int| 0 <= i < ids.len() ==> outcomes[#[trigger] ids[i]].id == ids[i],
        captures(crate::combat::listing(outcomes), owner, front),
    ensures
        owner is Some <==> front is Some,
        owner is None <==> forall|i: int|
            0 <= i < ids.len() ==> outcomes[#[trigger] ids[i]].attacker_remaining == 0,
        owner matches Some(o) ==> {
            let own = sum(
                Seq::new(
                    ids.len(),
                    |i: int|
                        if outcomes[ids[i]].attacker == o {
                            outcomes[ids[i]].attacker_remaining as int
                        } else {
                            0
                        },
                ),
            );
            forall|x: int|
                0 <= x < ids.len() && outcomes[#[trigger] ids[x]].attacker_remaining > 0 ==> {
                    let p = outcomes[ids[x]].attacker;
                    let theirs = sum(
                        Seq::new(
                            ids.len(),
                            |i: int|
                                if outcomes[ids[i]].attacker == p {
                                    outcomes[ids[i]].attacker_remaining as int
                                } else {
                                    0
                                },
                        ),
                    );
                    theirs < own || (theirs == own && o <= p)
                }
        },
        front matches Some(f) ==> {
            &&& outcomes.contains_key(f)
            &&& outcomes[f].attacker_remaining > 0
            &&& owner == Some(outcomes[f].attacker)
            &&& forall|x: int|
                0 <= x < ids.len() && outcomes[#[trigger] ids[x]].attacker == outcomes[f].attacker
                    ==> outcomes[ids[x]].attacker_remaining < outcomes[f].attacker_remaining || (
                outcomes[ids[x]].attacker_remaining == outcomes[f].attacker_remaining && f
                    <= ids[x])
        },
{
    let listed = crate::combat::listing(outcomes);
    lemma_are_ids(ids, outcomes);
    if owner is None {
        assert forall|i: int| 0 <= i < ids.len() implies outcomes[#[trigger] ids[i]].attacker_remaining
            == 0 by {
            assert(listed[i] == outcomes[ids[i]]);
        }
    }
    if let Some(o) = owner {
        let f = front->0;
        let i = choose|i: int|
            0 <= i < listed.len() && (#[trigger] listed[i]).id == f && listed[i].attacker == o
                && listed[i].attacker_remaining > 0 && forall|j: int|
                0 <= j < listed.len() && (#[trigger] listed[j]).attacker == o
                    && listed[j].attacker_remaining > 0 ==> listed[j].attacker_remaining
                    < listed[i].attacker_remaining || (listed[j].attacker_remaining
                    == listed[i].attacker_remaining && f <= listed[j].id);
        assert(listed[i] == outcomes[ids[i]]);
        assert(ids.contains(ids[i]));
        assert(f == ids[i]);
        assert forall|x: int|
            0 <= x < ids.len() && outcomes[#[trigger] ids[x]].attacker == outcomes[f].attacker implies outcomes[ids[x]].attacker_remaining
            < outcomes[f].attacker_remaining || (outcomes[ids[x]].attacker_remaining
            == outcomes[f].attacker_remaining && f <= ids[x]) by {
            assert(listed[x] == outcomes[ids[x]]);
        }
        assert forall|x: int|
            0 <= x < ids.len() && outcomes[#[trigger] ids[x]].attacker_remaining > 0 implies {
            let p = outcomes[ids[x]].attacker;
            survivors_of(listed, p) < survivors_of(listed, o) || (survivors_of(listed, p)
                == survivors_of(listed, o) && o <= p)
        } by {
            let p = outcomes[ids[x]].attacker;
            let terms = Seq::new(
                listed.len(),
                |i: int|
                    if listed[i].attacker == p {
                        listed[i].attacker_remaining as int
                    } else {
                        0
                    },
            );
            lemma_sum_bounds(terms, 0);
            assert(listed[x] == outcomes[ids[x]]);
            assert(terms[x] <= sum(terms));
            assert(survivors_of(listed, p) > 0);
        }
        assert forall|p: PlayerId| survivors_of(listed, p) == sum(
            Seq::new(
                ids.len(),
                |i: int|
                    if outcomes[ids[i]].attacker == p {
                        outcomes[ids[i]].attacker_remaining as int
                    } else {
                        0
                    },
            ),
        ) by {
            assert(Seq::new(
                listed.len(),
                |i: int|
                    if listed[i].attacker == p {
                        listed[i].attacker_remaining as int
                    } else {
                        0
                    },
            ) =~= Seq::new(
                ids.len(),
                |i: int|
                    if outcomes[ids[i]].attacker == p {
                        outcomes[ids[i]].attacker_remaining as int
                    } else {
                        0
                    },
            ));
        }
    }
}

/// A cell is taken only when its last defender has fallen, and then by whom the
/// capture rule names.
pub proof fn law_defended_cells_are_not_taken(
    target: Axial,
    defender_strength: Strength,
    defender_elevation: i16,
    attacks: Seq<AttackFront>,
    config: CombatConfig,
    r: CombatResolution,
    ids: Seq<u64>,
)
    requires
        resolves(target, defender_strength, defender_elevation, attacks, config, r),
        are_ids(ids, r.attacks@),
    ensures
        r.defender_remaining > 0 ==> r.capturing_owner is None && r.capturing_front is None,
        r.defender_remaining == 0 ==> captures(
            crate::combat::listing(r.attacks@),
            r.capturing_owner,
            r.capturing_front,
        ),
        forall|i: int| 0 <= i < ids.len() ==> r.attacks@[#[trigger] ids[i]].id == ids[i],
        r.defender_remaining == 0 && (exists|i: int|
            0 <= i < ids.len() && r.attacks@[#[trigger] ids[i]].attacker_remaining > 0)
            ==> r.capturing_owner is Some,
{
    let valid = lemma_outcomes_are_listed(
        target,
        defender_strength,
        defender_elevation,
        attacks,
        config,
        r,
        ids,
    );
    let outs = outcomes_of(valid, defender_strength as int, defender_elevation, config);
    lemma_are_ids(ids, r.attacks@);
    assert forall|i: int| 0 <= i < ids.len() implies r.attacks@[#[trigger] ids[i]].id == ids[i] by {
        assert(outs[i] == r.attacks@[ids[i]]);
        assert(ids.contains(ids[i]));
        assert(r.attacks@.contains_key(ids[i]));
        let x = choose|x: int| 0 <= x < valid.len() && (#[trigger] valid[x]).id == ids[i];
        assert(r.attacks@[valid[x].id] == outs[x]);
    }
    if r.defender_remaining == 0 {
        law_capture_goes_to_the_strongest(r.attacks@, ids, r.capturing_owner, r.capturing_front);
    }
}

} // verus!
