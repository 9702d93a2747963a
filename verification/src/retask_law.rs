//! Keeping the player's running orders row by row comes to the same as working
//! them out anew.
use vstd::prelude::*;
use crate::coord::Axial;
use crate::flows::way;
use crate::impact::{follows, reoffered, retask_differs, row_at, serves};
use crate::ledger::{
    amount_at, count_at, counted, edge_key, group_at, noted, set_at, shifted, shifted_in,
};
use crate::retask::{is_noted, outstanding, scene_of, Offers, Scene};
use crate::table::{
    lemma_keys_are_distinct, lemma_ordered_keys, ordered_keys,
};
use crate::tactical::{
    TacticalCache, TacticalChanges, TransferDestination, TransferSource, TransitPacket,
};

verus! {

/// What the rows under some numbers come to.
pub open spec fn tally<R>(rows: Map<u128, R>, keys: Seq<u128>, worth: spec_fn(R) -> int) -> int
    decreases keys.len(),
{
    if keys.len() == 0 {
        0
    } else {
        tally(rows, keys.drop_last(), worth) + (if rows.contains_key(keys.last()) {
            worth(rows[keys.last()])
        } else {
            0
        })
    }
}

/// What all rows come to.
pub open spec fn total<R>(rows: Map<u128, R>, worth: spec_fn(R) -> int) -> int {
    tally(rows, ordered_keys(rows.dom()), worth)
}

/// How many soldiers a packet has on a cell.
pub open spec fn strength_on(scene: Scene, c: Axial) -> spec_fn(TransitPacket) -> int {
    |packet: TransitPacket|
        if scene.packet_place(packet) == Some(c) {
            packet.infantry as int
        } else {
            0
        }
}

/// How many soldiers a packet of an order has on a cell.
pub open spec fn order_strength_on(scene: Scene, order: u128, c: Axial) -> spec_fn(
    TransitPacket,
) -> int {
    |packet: TransitPacket|
        if scene.packet_place(packet) == Some(c) && packet.order_id as u128 == order {
            packet.infantry as int
        } else {
            0
        }
}

/// Whether a packet of an order claims a cell: one or nothing.
pub open spec fn packet_claims(scene: Scene, order: u128, c: Axial) -> spec_fn(
    TransitPacket,
) -> int {
    |packet: TransitPacket|
        if scene.packet_place(packet) is Some && packet.order_id as u128 == order && scene.place(
            packet.destination_cell,
        ) == Some(c) {
            1
        } else {
            0
        }
}

/// Whether a packet of an order crosses an edge next: one or nothing.
pub open spec fn crosses(scene: Scene, edge: u128, order: u128) -> spec_fn(TransitPacket) -> int {
    |packet: TransitPacket|
        if scene.packet_place(packet) is Some && packet.order_id as u128 == order && (
        scene.next_cell(packet) matches Some(next) && edge_key(packet.current_cell, next) == edge) {
            1
        } else {
            0
        }
}

/// Whether a source of an order is a cell: one or nothing.
pub open spec fn sources_on(scene: Scene, order: u128, c: Axial) -> spec_fn(
    TransferSource,
) -> int {
    |source: TransferSource|
        if scene.source_place(source) == Some(c) && source.order_id as u128 == order {
            1
        } else {
            0
        }
}

/// Whether a destination of an order claims a cell: one or nothing.
pub open spec fn destination_claims(scene: Scene, order: u128, c: Axial) -> spec_fn(
    TransferDestination,
) -> int {
    |destination: TransferDestination|
        if scene.destination_place(destination) == Some(c) && destination.order_id as u128
            == order {
            1
        } else {
            0
        }
}

/// How many soldiers are reserved on a cell for a destination of an order.
pub open spec fn reserved_on(scene: Scene, order: u128, c: Axial) -> spec_fn(
    TransferDestination,
) -> int {
    |destination: TransferDestination|
        if scene.destination_place(destination) == Some(c) && destination.order_id as u128 == order
            && scene.reserves(destination) {
            outstanding(destination) as int
        } else {
            0
        }
}

/// Whether offers say what the rows come to.
pub open spec fn is_tallied(offers: Offers, scene: Scene, cache: TacticalCache) -> bool {
    &&& forall|c: Axial| #[trigger]
        amount_at(offers.strength, c) == total(cache.packets@, strength_on(scene, c))
    &&& forall|o: u128, c: Axial| #[trigger]
        amount_at(group_at(offers.order_strength, o), c) == total(
            cache.packets@,
            order_strength_on(scene, o, c),
        )
    &&& forall|o: u128, c: Axial| #[trigger]
        count_at(group_at(offers.sources, o), c) == total(cache.sources@, sources_on(scene, o, c))
    &&& forall|o: u128, c: Axial| #[trigger]
        count_at(group_at(offers.claims, o), c) == total(
            cache.packets@,
            packet_claims(scene, o, c),
        ) + total(cache.destinations@, destination_claims(scene, o, c))
    &&& forall|o: u128, c: Axial| #[trigger]
        amount_at(group_at(offers.reservations, o), c) == total(
            cache.destinations@,
            reserved_on(scene, o, c),
        )
    &&& forall|e: u128, o: u128| #[trigger]
        count_at(group_at(offers.crossings, e), o) == total(cache.packets@, crosses(scene, e, o))
}

/// Whether what the rows come to can be counted.
pub open spec fn is_countable(scene: Scene, cache: TacticalCache) -> bool {
    &&& forall|c: Axial| #[trigger] total(cache.packets@, strength_on(scene, c)) <= u64::MAX
    &&& forall|o: u128, c: Axial| #[trigger]
        total(cache.packets@, order_strength_on(scene, o, c)) <= u64::MAX
    &&& forall|o: u128, c: Axial| #[trigger]
        total(cache.sources@, sources_on(scene, o, c)) <= u32::MAX
    &&& forall|o: u128, c: Axial|
        #![trigger total(cache.packets@, packet_claims(scene, o, c))]
        total(cache.packets@, packet_claims(scene, o, c)) + total(
            cache.destinations@,
            destination_claims(scene, o, c),
        ) <= u32::MAX
    &&& forall|o: u128, c: Axial| #[trigger]
        total(cache.destinations@, reserved_on(scene, o, c)) <= u64::MAX
    &&& forall|e: u128, o: u128| #[trigger]
        total(cache.packets@, crosses(scene, e, o)) <= u32::MAX
}

/// A number after so much more, or less.
spec fn moved(from: int, by: int, adding: bool) -> int {
    if adding {
        from + by
    } else {
        from - by
    }
}

/// Whether a number can be moved so far within its range.
spec fn movable(from: int, by: int, adding: bool, top: int) -> bool {
    if adding {
        from + by <= top
    } else {
        from >= by
    }
}

proof fn lemma_tally_is_positive<R>(
    rows: Map<u128, R>,
    keys: Seq<u128>,
    worth: spec_fn(R) -> int,
)
    requires
        forall|r: R| #[trigger] worth(r) >= 0,
    ensures
        tally(rows, keys, worth) >= 0,
    decreases keys.len(),
{
    if keys.len() > 0 {
        lemma_tally_is_positive(rows, keys.drop_last(), worth);
    }
}

proof fn lemma_shift<K>(entries: Map<K, u64>, key: K, amount: u64, adding: bool, k: K)
    ensures
        ({
            let by = if k == key {
                amount as int
            } else {
                0
            };
            movable(amount_at(entries, k) as int, by, adding, u64::MAX as int) ==> amount_at(
                shifted(entries, key, amount, adding),
                k,
            ) == moved(amount_at(entries, k) as int, by, adding)
        }),
{
}

proof fn lemma_shift_in<K>(
    groups: Map<u128, Map<K, u64>>,
    group: u128,
    key: K,
    amount: u64,
    adding: bool,
    g: u128,
    k: K,
)
    ensures
        ({
            let by = if g == group && k == key {
                amount as int
            } else {
                0
            };
            movable(amount_at(group_at(groups, g), k) as int, by, adding, u64::MAX as int)
                ==> amount_at(group_at(shifted_in(groups, group, key, amount, adding), g), k)
                == moved(amount_at(group_at(groups, g), k) as int, by, adding)
        }),
{
    lemma_shift(group_at(groups, group), key, amount, adding, k);
    let entries = shifted(group_at(groups, group), key, amount, adding);
    if entries.dom() =~= Set::<K>::empty() {
        assert(!entries.dom().contains(k));
    }
}

proof fn lemma_count<K>(
    groups: Map<u128, Map<K, u32>>,
    group: u128,
    key: K,
    adding: bool,
    g: u128,
    k: K,
)
    ensures
        ({
            let by = if g == group && k == key {
                1int
            } else {
                0
            };
            movable(count_at(group_at(groups, g), k) as int, by, adding, u32::MAX as int)
                ==> count_at(group_at(counted(groups, group, key, adding), g), k) == moved(
                count_at(group_at(groups, g), k) as int,
                by,
                adding,
            )
        }),
{
    let entries = group_at(groups, group);
    if entries.remove(key).dom() =~= Set::<K>::empty() {
        assert(!entries.remove(key).dom().contains(k));
    }
}

/// What packets change.
#[verifier::rlimit(30)]
proof fn lemma_packets(
    offers: Offers,
    scene: Scene,
    rows: Map<u128, TransitPacket>,
    keys: Seq<u128>,
    adding: bool,
    o: u128,
    c: Axial,
    e: u128,
)
    ensures
        ({
            let after = offers.with_packets(scene, rows, keys, adding);
            let strength = tally(rows, keys, strength_on(scene, c));
            let order_strength = tally(rows, keys, order_strength_on(scene, o, c));
            let claims = tally(rows, keys, packet_claims(scene, o, c));
            let crossings = tally(rows, keys, crosses(scene, e, o));
            let top = u64::MAX as int;
            let most = u32::MAX as int;
            &&& after.sources == offers.sources
            &&& after.reservations == offers.reservations
            &&& movable(amount_at(offers.strength, c) as int, strength, adding, top) ==> amount_at(
                after.strength,
                c,
            ) == moved(amount_at(offers.strength, c) as int, strength, adding)
            &&& movable(
                amount_at(group_at(offers.order_strength, o), c) as int,
                order_strength,
                adding,
                top,
            ) ==> amount_at(group_at(after.order_strength, o), c) == moved(
                amount_at(group_at(offers.order_strength, o), c) as int,
                order_strength,
                adding,
            )
            &&& movable(count_at(group_at(offers.claims, o), c) as int, claims, adding, most)
                ==> count_at(group_at(after.claims, o), c) == moved(
                count_at(group_at(offers.claims, o), c) as int,
                claims,
                adding,
            )
            &&& movable(count_at(group_at(offers.crossings, e), o) as int, crossings, adding, most)
                ==> count_at(group_at(after.crossings, e), o) == moved(
                count_at(group_at(offers.crossings, e), o) as int,
                crossings,
                adding,
            )
        }),
    decreases keys.len(),
{
    if keys.len() > 0 {
        let before = keys.drop_last();
        lemma_packets(offers, scene, rows, before, adding, o, c, e);
        lemma_tally_is_positive(rows, before, strength_on(scene, c));
        lemma_tally_is_positive(rows, before, order_strength_on(scene, o, c));
        lemma_tally_is_positive(rows, before, packet_claims(scene, o, c));
        lemma_tally_is_positive(rows, before, crosses(scene, e, o));
        let middle = offers.with_packets(scene, rows, before, adding);
        if rows.contains_key(keys.last()) {
            let packet = rows[keys.last()];
            let order = packet.order_id as u128;
            if let Some(current) = scene.packet_place(packet) {
                lemma_shift(middle.strength, current, packet.infantry, adding, c);
                lemma_shift_in(
                    middle.order_strength,
                    order,
                    current,
                    packet.infantry,
                    adding,
                    o,
                    c,
                );
                if let Some(destination) = scene.place(packet.destination_cell) {
                    lemma_count(middle.claims, order, destination, adding, o, c);
                }
                if let Some(next) = scene.next_cell(packet) {
                    lemma_count(
                        middle.crossings,
                        edge_key(packet.current_cell, next),
                        order,
                        adding,
                        e,
                        o,
                    );
                }
            }
        }
    }
}

/// What sources change.
proof fn lemma_sources(
    offers: Offers,
    scene: Scene,
    rows: Map<u128, TransferSource>,
    keys: Seq<u128>,
    adding: bool,
    o: u128,
    c: Axial,
)
    ensures
        ({
            let after = offers.with_sources(scene, rows, keys, adding);
            let sources = tally(rows, keys, sources_on(scene, o, c));
            &&& after == Offers {
                sources: after.sources,
                source_cells: after.source_cells,
                ..offers
            }
            &&& movable(
                count_at(group_at(offers.sources, o), c) as int,
                sources,
                adding,
                u32::MAX as int,
            ) ==> count_at(group_at(after.sources, o), c) == moved(
                count_at(group_at(offers.sources, o), c) as int,
                sources,
                adding,
            )
        }),
    decreases keys.len(),
{
    if keys.len() > 0 {
        let before = keys.drop_last();
        lemma_sources(offers, scene, rows, before, adding, o, c);
        lemma_tally_is_positive(rows, before, sources_on(scene, o, c));
        let middle = offers.with_sources(scene, rows, before, adding);
        if rows.contains_key(keys.last()) {
            let source = rows[keys.last()];
            if let Some(place) = scene.source_place(source) {
                lemma_count(middle.sources, source.order_id as u128, place, adding, o, c);
            }
        }
    }
}

/// What destinations change.
proof fn lemma_destinations(
    offers: Offers,
    scene: Scene,
    rows: Map<u128, TransferDestination>,
    keys: Seq<u128>,
    adding: bool,
    o: u128,
    c: Axial,
)
    ensures
        ({
            let after = offers.with_destinations(scene, rows, keys, adding);
            let claims = tally(rows, keys, destination_claims(scene, o, c));
            let reserved = tally(rows, keys, reserved_on(scene, o, c));
            &&& after == Offers {
                claims: after.claims,
                claim_cells: after.claim_cells,
                reservations: after.reservations,
                ..offers
            }
            &&& movable(
                count_at(group_at(offers.claims, o), c) as int,
                claims,
                adding,
                u32::MAX as int,
            ) ==> count_at(group_at(after.claims, o), c) == moved(
                count_at(group_at(offers.claims, o), c) as int,
                claims,
                adding,
            )
            &&& movable(
                amount_at(group_at(offers.reservations, o), c) as int,
                reserved,
                adding,
                u64::MAX as int,
            ) ==> amount_at(group_at(after.reservations, o), c) == moved(
                amount_at(group_at(offers.reservations, o), c) as int,
                reserved,
                adding,
            )
        }),
    decreases keys.len(),
{
    if keys.len() > 0 {
        let before = keys.drop_last();
        lemma_destinations(offers, scene, rows, before, adding, o, c);
        lemma_tally_is_positive(rows, before, destination_claims(scene, o, c));
        lemma_tally_is_positive(rows, before, reserved_on(scene, o, c));
        let middle = offers.with_destinations(scene, rows, before, adding);
        if rows.contains_key(keys.last()) {
            let destination = rows[keys.last()];
            let order = destination.order_id as u128;
            if let Some(place) = scene.destination_place(destination) {
                lemma_count(middle.claims, order, place, adding, o, c);
                lemma_shift_in(
                    middle.reservations,
                    order,
                    place,
                    outstanding(destination),
                    adding,
                    o,
                    c,
                );
            }
        }
    }
}

/// The sum of a function over a finite set.
spec fn sum_over(set: Set<u128>, worth: spec_fn(u128) -> int) -> int
    decreases set.len(),
    when set.finite()
{
    if set.len() == 0 {
        0
    } else {
        let k = set.choose();
        worth(k) + sum_over(set.remove(k), worth)
    }
}

proof fn lemma_sum_remove(set: Set<u128>, worth: spec_fn(u128) -> int, k: u128)
    requires
        set.finite(),
        set.contains(k),
    ensures
        sum_over(set, worth) == worth(k) + sum_over(set.remove(k), worth),
    decreases set.len(),
{
    let j = set.choose();
    if j != k {
        lemma_sum_remove(set.remove(j), worth, k);
        lemma_sum_remove(set.remove(k), worth, j);
        assert(set.remove(j).remove(k) =~= set.remove(k).remove(j));
    }
}

/// Two parts of a set come to the whole.
proof fn lemma_sum_split(set: Set<u128>, part: Set<u128>, worth: spec_fn(u128) -> int)
    requires
        set.finite(),
        part.subset_of(set),
    ensures
        sum_over(set, worth) == sum_over(part, worth) + sum_over(set.difference(part), worth),
    decreases part.len(),
{
    vstd::set_lib::lemma_len_subset(part, set);
    if part.len() == 0 {
        assert(part =~= Set::<u128>::empty());
        assert(set.difference(part) =~= set);
    } else {
        vstd::set_lib::lemma_set_empty_equivalency_len(part);
        let k = part.choose();
        lemma_sum_remove(set, worth, k);
        lemma_sum_remove(part, worth, k);
        lemma_sum_split(set.remove(k), part.remove(k), worth);
        assert(set.remove(k).difference(part.remove(k)) =~= set.difference(part));
    }
}

proof fn lemma_sum_same(
    set: Set<u128>,
    worth: spec_fn(u128) -> int,
    other: spec_fn(u128) -> int,
)
    requires
        set.finite(),
        forall|k: u128| #[trigger] set.contains(k) ==> worth(k) == other(k),
    ensures
        sum_over(set, worth) == sum_over(set, other),
    decreases set.len(),
{
    if set.len() > 0 {
        vstd::set_lib::lemma_set_empty_equivalency_len(set);
        let k = set.choose();
        assert(set.contains(k));
        assert forall|j: u128| #[trigger] set.remove(k).contains(j) implies worth(j) == other(j) by {
            assert(set.contains(j));
        }
        lemma_sum_same(set.remove(k), worth, other);
    }
}

/// What a row under a number is worth; nothing for no row.
spec fn worth_at<R>(rows: Map<u128, R>, worth: spec_fn(R) -> int) -> spec_fn(u128) -> int {
    |k: u128|
        if rows.contains_key(k) {
            worth(rows[k])
        } else {
            0
        }
}

proof fn lemma_tally_is_sum<R>(rows: Map<u128, R>, keys: Seq<u128>, worth: spec_fn(R) -> int)
    requires
        keys.no_duplicates(),
    ensures
        tally(rows, keys, worth) == sum_over(keys.to_set(), worth_at(rows, worth)),
    decreases keys.len(),
{
    keys.unique_seq_to_set();
    if keys.len() == 0 {
        assert(keys.to_set() =~= Set::<u128>::empty());
    } else {
        let rest = keys.drop_last();
        let k = keys.last();
        assert(rest.no_duplicates()) by {
            assert forall|i: int, j: int|
                0 <= i < rest.len() && 0 <= j < rest.len() && i != j implies rest[i] != rest[j] by {
                assert(rest[i] == keys[i] && rest[j] == keys[j]);
            }
        }
        lemma_tally_is_sum(rows, rest, worth);
        assert(rest.push(k) =~= keys);
        crate::axials::lemma_to_set_push(rest, k);
        assert(!rest.contains(k)) by {
            if rest.contains(k) {
                let i = choose|i: int| 0 <= i < rest.len() && rest[i] == k;
                assert(keys[i] == keys[keys.len() - 1]);
            }
        }
        assert(keys.to_set().contains(k));
        assert(keys.to_set().remove(k) =~= rest.to_set());
        lemma_sum_remove(keys.to_set(), worth_at(rows, worth), k);
    }
}

/// Of two sets of rows, what the touched ones come to makes all the difference.
proof fn lemma_touched_make_the_difference<R>(
    before: Map<u128, R>,
    after: Map<u128, R>,
    touched: Set<u128>,
    worth: spec_fn(R) -> int,
    other: spec_fn(R) -> int,
)
    requires
        before.dom().finite(),
        after.dom().finite(),
        touched.finite(),
        forall|k: u128|
            !(#[trigger] touched.contains(k)) ==> before.contains_key(k) == after.contains_key(k) && (
            before.contains_key(k) ==> worth(before[k]) == other(after[k])),
        forall|r: R| #[trigger] worth(r) >= 0,
        forall|r: R| #[trigger] other(r) >= 0,
    ensures
        total(after, other) == total(before, worth) - tally(before, ordered_keys(touched), worth)
            + tally(after, ordered_keys(touched), other),
        tally(before, ordered_keys(touched), worth) >= 0,
        tally(after, ordered_keys(touched), other) >= 0,
        tally(before, ordered_keys(touched), worth) <= total(before, worth),
{
    let all = before.dom().union(after.dom()).union(touched);
    let f = worth_at(before, worth);
    let g = worth_at(after, other);
    lemma_ordered_keys(before.dom());
    lemma_ordered_keys(after.dom());
    lemma_ordered_keys(touched);
    lemma_keys_are_distinct(ordered_keys(before.dom()));
    lemma_keys_are_distinct(ordered_keys(after.dom()));
    lemma_keys_are_distinct(ordered_keys(touched));
    lemma_tally_is_sum(before, ordered_keys(before.dom()), worth);
    lemma_tally_is_sum(after, ordered_keys(after.dom()), other);
    lemma_tally_is_sum(before, ordered_keys(touched), worth);
    lemma_tally_is_sum(after, ordered_keys(touched), other);
    lemma_tally_is_positive(before, ordered_keys(touched), worth);
    lemma_tally_is_positive(after, ordered_keys(touched), other);
    lemma_sum_split(all, before.dom(), f);
    lemma_sum_split(all, after.dom(), g);
    lemma_sum_zero(all.difference(before.dom()), f);
    lemma_sum_zero(all.difference(after.dom()), g);
    lemma_sum_split(all, touched, f);
    lemma_sum_split(all, touched, g);
    let rest = all.difference(touched);
    assert forall|k: u128| #[trigger] rest.contains(k) implies f(k) == g(k) by {
        assert(!touched.contains(k));
    }
    lemma_sum_same(rest, f, g);
    lemma_sum_positive(rest, f);
}

proof fn lemma_sum_zero(set: Set<u128>, worth: spec_fn(u128) -> int)
    requires
        set.finite(),
        forall|k: u128| #[trigger] set.contains(k) ==> worth(k) == 0,
    ensures
        sum_over(set, worth) == 0,
{
    let nothing = |k: u128| 0int;
    lemma_sum_same(set, worth, nothing);
    lemma_sum_nothing(set);
}

proof fn lemma_sum_nothing(set: Set<u128>)
    requires
        set.finite(),
    ensures
        sum_over(set, |k: u128| 0int) == 0,
    decreases set.len(),
{
    if set.len() > 0 {
        vstd::set_lib::lemma_set_empty_equivalency_len(set);
        lemma_sum_nothing(set.remove(set.choose()));
    }
}

proof fn lemma_sum_positive(set: Set<u128>, worth: spec_fn(u128) -> int)
    requires
        set.finite(),
        forall|k: u128| #[trigger] set.contains(k) ==> worth(k) >= 0,
    ensures
        sum_over(set, worth) >= 0,
    decreases set.len(),
{
    if set.len() > 0 {
        vstd::set_lib::lemma_set_empty_equivalency_len(set);
        let k = set.choose();
        assert(set.contains(k));
        assert forall|j: u128| #[trigger] set.remove(k).contains(j) implies worth(j) >= 0 by {
            assert(set.contains(j));
        }
        lemma_sum_positive(set.remove(k), worth);
    }
}

/// The packets that changes touch.
pub open spec fn touched_packets(cache: TacticalCache, changes: TacticalChanges) -> Set<u128> {
    Set::new(
        |k: u128|
            changes.packets@.contains_key(k) || follows(cache.packets@, changes.routes@.dom(), k)
                || serves(cache.packets@, reoffered(cache.orders@, changes.orders@), k),
    )
}

/// The sources that changes touch.
pub open spec fn touched_sources(cache: TacticalCache, changes: TacticalChanges) -> Set<u128> {
    Set::new(
        |k: u128|
            changes.sources@.contains_key(k) || (cache.sources@.contains_key(k) && reoffered(
                cache.orders@,
                changes.orders@,
            ).contains(cache.sources@[k].order_id as u128)),
    )
}

/// The destinations that changes touch.
pub open spec fn touched_destinations(cache: TacticalCache, changes: TacticalChanges) -> Set<u128> {
    Set::new(
        |k: u128|
            changes.destinations@.contains_key(k) || (cache.destinations@.contains_key(k)
                && reoffered(cache.orders@, changes.orders@).contains(
                cache.destinations@[k].order_id as u128,
            )),
    )
}

/// Whether the rows of a cache are finitely many.
pub open spec fn is_finite(cache: TacticalCache) -> bool {
    &&& cache.packets@.dom().finite()
    &&& cache.sources@.dom().finite()
    &&& cache.destinations@.dom().finite()
}

/// Whether the changed rows are finitely many.
pub open spec fn is_finite_batch(changes: TacticalChanges) -> bool {
    &&& changes.packets@.dom().finite()
    &&& changes.sources@.dom().finite()
    &&& changes.destinations@.dom().finite()
}

proof fn lemma_touched_are_finite(cache: TacticalCache, changes: TacticalChanges)
    requires
        is_finite(cache),
        is_finite_batch(changes),
    ensures
        touched_packets(cache, changes).finite(),
        touched_sources(cache, changes).finite(),
        touched_destinations(cache, changes).finite(),
{
    let packets = changes.packets@.dom().union(cache.packets@.dom());
    assert(touched_packets(cache, changes).subset_of(packets));
    vstd::set_lib::lemma_set_subset_finite(packets, touched_packets(cache, changes));
    let sources = changes.sources@.dom().union(cache.sources@.dom());
    assert(touched_sources(cache, changes).subset_of(sources));
    vstd::set_lib::lemma_set_subset_finite(sources, touched_sources(cache, changes));
    let destinations = changes.destinations@.dom().union(cache.destinations@.dom());
    assert(touched_destinations(cache, changes).subset_of(destinations));
    vstd::set_lib::lemma_set_subset_finite(destinations, touched_destinations(cache, changes));
}

/// An order that is offered as before is the same order for its rows.
proof fn lemma_same_order(
    ids: Map<u128, Axial>,
    local_player: u32,
    before: TacticalCache,
    changes: TacticalChanges,
    after: TacticalCache,
    order_id: u64,
)
    requires
        after.has_rows_after(before, changes),
        !reoffered(before.orders@, changes.orders@).contains(order_id as u128),
    ensures
        ({
            let was = scene_of(ids, before, local_player).local_order(order_id);
            let is = scene_of(ids, after, local_player).local_order(order_id);
            &&& (was is Some) == (is is Some)
            &&& was is Some ==> was.unwrap().kind == is.unwrap().kind
        }),
{
    let key = order_id as u128;
    if changes.orders@.contains_key(key) {
        assert(!retask_differs(row_at(before.orders@, key), changes.orders@[key]));
    }
}

/// A packet that changes do not touch counts as before.
proof fn lemma_packet_stays(
    ids: Map<u128, Axial>,
    local_player: u32,
    before: TacticalCache,
    changes: TacticalChanges,
    after: TacticalCache,
    k: u128,
)
    requires
        after.has_rows_after(before, changes),
        !touched_packets(before, changes).contains(k),
    ensures
        before.packets@.contains_key(k) == after.packets@.contains_key(k),
        before.packets@.contains_key(k) ==> {
            let was = scene_of(ids, before, local_player);
            let is = scene_of(ids, after, local_player);
            let packet = before.packets@[k];
            &&& after.packets@[k] == packet
            &&& was.packet_place(packet) == is.packet_place(packet)
            &&& was.next_cell(packet) == is.next_cell(packet)
        },
{
    if before.packets@.contains_key(k) {
        let packet = before.packets@[k];
        lemma_same_order(ids, local_player, before, changes, after, packet.order_id);
        if packet.route_id != 0 {
            assert(!changes.routes@.dom().contains(packet.route_id as u128));
        }
        assert(way(packet, after.routes@) == way(packet, before.routes@));
    }
}

/// What all rows under one order and cell, or edge, come to.
ghost struct Sums {
    strength: int,
    order_strength: int,
    sources: int,
    packet_claims: int,
    destination_claims: int,
    reserved: int,
    crossings: int,
}

spec fn sums_of(
    scene: Scene,
    cache: TacticalCache,
    packets: Set<u128>,
    sources: Set<u128>,
    destinations: Set<u128>,
    o: u128,
    c: Axial,
    e: u128,
) -> Sums {
    Sums {
        strength: tally(cache.packets@, ordered_keys(packets), strength_on(scene, c)),
        order_strength: tally(
            cache.packets@,
            ordered_keys(packets),
            order_strength_on(scene, o, c),
        ),
        sources: tally(cache.sources@, ordered_keys(sources), sources_on(scene, o, c)),
        packet_claims: tally(cache.packets@, ordered_keys(packets), packet_claims(scene, o, c)),
        destination_claims: tally(
            cache.destinations@,
            ordered_keys(destinations),
            destination_claims(scene, o, c),
        ),
        reserved: tally(
            cache.destinations@,
            ordered_keys(destinations),
            reserved_on(scene, o, c),
        ),
        crossings: tally(cache.packets@, ordered_keys(packets), crosses(scene, e, o)),
    }
}

/// What rows do to offers at one order and cell, or edge.
proof fn lemma_rows(
    offers: Offers,
    scene: Scene,
    cache: TacticalCache,
    packets: Set<u128>,
    sources: Set<u128>,
    destinations: Set<u128>,
    adding: bool,
    o: u128,
    c: Axial,
    e: u128,
)
    ensures
        ({
            let by = sums_of(scene, cache, packets, sources, destinations, o, c, e);
            let after = offers.with_rows(scene, cache, packets, sources, destinations, adding);
            let top = u64::MAX as int;
            let most = u32::MAX as int;
            let strength = amount_at(offers.strength, c) as int;
            let order_strength = amount_at(group_at(offers.order_strength, o), c) as int;
            let from = count_at(group_at(offers.sources, o), c) as int;
            let claims = count_at(group_at(offers.claims, o), c) as int;
            let reserved = amount_at(group_at(offers.reservations, o), c) as int;
            let crossings = count_at(group_at(offers.crossings, e), o) as int;
            &&& movable(strength, by.strength, adding, top) ==> amount_at(after.strength, c)
                == moved(strength, by.strength, adding)
            &&& movable(order_strength, by.order_strength, adding, top) ==> amount_at(
                group_at(after.order_strength, o),
                c,
            ) == moved(order_strength, by.order_strength, adding)
            &&& movable(from, by.sources, adding, most) ==> count_at(group_at(after.sources, o), c)
                == moved(from, by.sources, adding)
            &&& movable(claims, by.packet_claims + by.destination_claims, adding, most) ==> count_at(
                group_at(after.claims, o),
                c,
            ) == moved(claims, by.packet_claims + by.destination_claims, adding)
            &&& movable(reserved, by.reserved, adding, top) ==> amount_at(
                group_at(after.reservations, o),
                c,
            ) == moved(reserved, by.reserved, adding)
            &&& movable(crossings, by.crossings, adding, most) ==> count_at(
                group_at(after.crossings, e),
                o,
            ) == moved(crossings, by.crossings, adding)
            &&& by.packet_claims >= 0 && by.destination_claims >= 0
        }),
{
    let p = ordered_keys(packets);
    let s = ordered_keys(sources);
    let d = ordered_keys(destinations);
    let first = offers.with_packets(scene, cache.packets@, p, adding);
    let second = first.with_sources(scene, cache.sources@, s, adding);
    lemma_packets(offers, scene, cache.packets@, p, adding, o, c, e);
    lemma_sources(first, scene, cache.sources@, s, adding, o, c);
    lemma_destinations(second, scene, cache.destinations@, d, adding, o, c);
    lemma_tally_is_positive(cache.packets@, p, packet_claims(scene, o, c));
    lemma_tally_is_positive(cache.destinations@, d, destination_claims(scene, o, c));
}

/// Worked out anew, offers say what the rows come to, where that can be
/// counted.
pub proof fn law_rebuilt_offers_are_tallied(scene: Scene, cache: TacticalCache)
    requires
        is_countable(scene, cache),
    ensures
        is_tallied(
            Offers::nothing().with_rows(
                scene,
                cache,
                cache.packets@.dom(),
                cache.sources@.dom(),
                cache.destinations@.dom(),
                true,
            ),
            scene,
            cache,
        ),
{
    let p = cache.packets@.dom();
    let s = cache.sources@.dom();
    let d = cache.destinations@.dom();
    let start = Offers::nothing();
    let after = start.with_rows(scene, cache, p, s, d, true);
    assert forall|c: Axial| #[trigger] amount_at(after.strength, c) == total(
        cache.packets@,
        strength_on(scene, c),
    ) by {
        lemma_rows(start, scene, cache, p, s, d, true, 0, c, 0);
    }
    assert forall|o: u128, c: Axial| #[trigger]
        amount_at(group_at(after.order_strength, o), c) == total(
            cache.packets@,
            order_strength_on(scene, o, c),
        ) by {
        lemma_rows(start, scene, cache, p, s, d, true, o, c, 0);
    }
    assert forall|o: u128, c: Axial| #[trigger] count_at(group_at(after.sources, o), c) == total(
        cache.sources@,
        sources_on(scene, o, c),
    ) by {
        lemma_rows(start, scene, cache, p, s, d, true, o, c, 0);
    }
    assert forall|o: u128, c: Axial| #[trigger] count_at(group_at(after.claims, o), c) == total(
        cache.packets@,
        packet_claims(scene, o, c),
    ) + total(cache.destinations@, destination_claims(scene, o, c)) by {
        lemma_rows(start, scene, cache, p, s, d, true, o, c, 0);
    }
    assert forall|o: u128, c: Axial| #[trigger]
        amount_at(group_at(after.reservations, o), c) == total(
            cache.destinations@,
            reserved_on(scene, o, c),
        ) by {
        lemma_rows(start, scene, cache, p, s, d, true, o, c, 0);
    }
    assert forall|e: u128, o: u128| #[trigger] count_at(group_at(after.crossings, e), o) == total(
        cache.packets@,
        crosses(scene, e, o),
    ) by {
        lemma_rows(start, scene, cache, p, s, d, true, o, Axial { q: 0, r: 0 }, e);
    }
}

/// How the sums of all rows differ before and after changes.
proof fn lemma_sums_differ(
    ids: Map<u128, Axial>,
    local_player: u32,
    before: TacticalCache,
    changes: TacticalChanges,
    after: TacticalCache,
    o: u128,
    c: Axial,
    e: u128,
)
    requires
        after.has_rows_after(before, changes),
        is_finite(before),
        is_finite(after),
        is_finite_batch(changes),
    ensures
        ({
            let p = touched_packets(before, changes);
            let s = touched_sources(before, changes);
            let d = touched_destinations(before, changes);
            let was = scene_of(ids, before, local_player);
            let is = scene_of(ids, after, local_player);
            let out = sums_of(was, before, p, s, d, o, c, e);
            let back = sums_of(is, after, p, s, d, o, c, e);
            let all = sums_of(
                was,
                before,
                before.packets@.dom(),
                before.sources@.dom(),
                before.destinations@.dom(),
                o,
                c,
                e,
            );
            let now = sums_of(
                is,
                after,
                after.packets@.dom(),
                after.sources@.dom(),
                after.destinations@.dom(),
                o,
                c,
                e,
            );
            &&& now.strength == all.strength - out.strength + back.strength && 0 <= out.strength
                <= all.strength
            &&& now.order_strength == all.order_strength - out.order_strength + back.order_strength
                && 0 <= out.order_strength <= all.order_strength
            &&& now.sources == all.sources - out.sources + back.sources && 0 <= out.sources
                <= all.sources
            &&& now.packet_claims == all.packet_claims - out.packet_claims + back.packet_claims && 0
                <= out.packet_claims <= all.packet_claims
            &&& now.destination_claims == all.destination_claims - out.destination_claims
                + back.destination_claims && 0 <= out.destination_claims <= all.destination_claims
            &&& now.reserved == all.reserved - out.reserved + back.reserved && 0 <= out.reserved
                <= all.reserved
            &&& now.crossings == all.crossings - out.crossings + back.crossings && 0
                <= out.crossings <= all.crossings
        }),
{
    let p = touched_packets(before, changes);
    let s = touched_sources(before, changes);
    let d = touched_destinations(before, changes);
    let was = scene_of(ids, before, local_player);
    let is = scene_of(ids, after, local_player);
    lemma_touched_are_finite(before, changes);
    assert forall|k: u128| !(#[trigger] p.contains(k)) implies before.packets@.contains_key(k)
        == after.packets@.contains_key(k) && (before.packets@.contains_key(k) ==> {
        let packet = before.packets@[k];
        &&& after.packets@[k] == packet
        &&& was.packet_place(packet) == is.packet_place(packet)
        &&& was.next_cell(packet) == is.next_cell(packet)
    }) by {
        lemma_packet_stays(ids, local_player, before, changes, after, k);
    }
    assert forall|k: u128| !(#[trigger] s.contains(k)) implies before.sources@.contains_key(k)
        == after.sources@.contains_key(k) && (before.sources@.contains_key(k) ==> {
        let source = before.sources@[k];
        &&& after.sources@[k] == source
        &&& was.source_place(source) == is.source_place(source)
    }) by {
        if before.sources@.contains_key(k) {
            let order_id = before.sources@[k].order_id;
            lemma_same_order(ids, local_player, before, changes, after, order_id);
        }
    }
    assert forall|k: u128| !(#[trigger] d.contains(k)) implies before.destinations@.contains_key(k)
        == after.destinations@.contains_key(k) && (before.destinations@.contains_key(k) ==> {
        let destination = before.destinations@[k];
        &&& after.destinations@[k] == destination
        &&& was.destination_place(destination) == is.destination_place(destination)
        &&& was.reserves(destination) == is.reserves(destination)
    }) by {
        if before.destinations@.contains_key(k) {
            let order_id = before.destinations@[k].order_id;
            lemma_same_order(ids, local_player, before, changes, after, order_id);
        }
    }
    lemma_touched_make_the_difference(
        before.packets@,
        after.packets@,
        p,
        strength_on(was, c),
        strength_on(is, c),
    );
    lemma_touched_make_the_difference(
        before.packets@,
        after.packets@,
        p,
        order_strength_on(was, o, c),
        order_strength_on(is, o, c),
    );
    lemma_touched_make_the_difference(
        before.packets@,
        after.packets@,
        p,
        packet_claims(was, o, c),
        packet_claims(is, o, c),
    );
    lemma_touched_make_the_difference(
        before.packets@,
        after.packets@,
        p,
        crosses(was, e, o),
        crosses(is, e, o),
    );
    lemma_touched_make_the_difference(
        before.sources@,
        after.sources@,
        s,
        sources_on(was, o, c),
        sources_on(is, o, c),
    );
    lemma_touched_make_the_difference(
        before.destinations@,
        after.destinations@,
        d,
        destination_claims(was, o, c),
        destination_claims(is, o, c),
    );
    lemma_touched_make_the_difference(
        before.destinations@,
        after.destinations@,
        d,
        reserved_on(was, o, c),
        reserved_on(is, o, c),
    );
}

/// Kept up row by row, offers say what the rows come to: when the touched rows
/// are taken out before a batch of changes and put back in after it, the offers
/// are what working them out anew would make them, where that can be counted.
pub proof fn law_kept_offers_are_tallied(
    start: Offers,
    ids: Map<u128, Axial>,
    local_player: u32,
    before: TacticalCache,
    changes: TacticalChanges,
    after: TacticalCache,
)
    requires
        after.has_rows_after(before, changes),
        is_finite(before),
        is_finite(after),
        is_finite_batch(changes),
        is_tallied(start, scene_of(ids, before, local_player), before),
        is_countable(scene_of(ids, after, local_player), after),
    ensures
        ({
            let p = touched_packets(before, changes);
            let s = touched_sources(before, changes);
            let d = touched_destinations(before, changes);
            let was = scene_of(ids, before, local_player);
            let is = scene_of(ids, after, local_player);
            is_tallied(
                start.with_rows(was, before, p, s, d, false).with_rows(is, after, p, s, d, true),
                is,
                after,
            )
        }),
{
    let p = touched_packets(before, changes);
    let s = touched_sources(before, changes);
    let d = touched_destinations(before, changes);
    let was = scene_of(ids, before, local_player);
    let is = scene_of(ids, after, local_player);
    let middle = start.with_rows(was, before, p, s, d, false);
    let last = middle.with_rows(is, after, p, s, d, true);
    let origin = Axial { q: 0, r: 0 };
    assert forall|c: Axial| #[trigger] amount_at(last.strength, c) == total(
        after.packets@,
        strength_on(is, c),
    ) by {
        lemma_sums_differ(ids, local_player, before, changes, after, 0, c, 0);
        lemma_rows(start, was, before, p, s, d, false, 0, c, 0);
        lemma_rows(middle, is, after, p, s, d, true, 0, c, 0);
        assert(amount_at(start.strength, c) == total(before.packets@, strength_on(was, c)));
        assert(total(after.packets@, strength_on(is, c)) <= u64::MAX);
    }
    assert forall|o: u128, c: Axial| #[trigger]
        amount_at(group_at(last.order_strength, o), c) == total(
            after.packets@,
            order_strength_on(is, o, c),
        ) by {
        lemma_sums_differ(ids, local_player, before, changes, after, o, c, 0);
        lemma_rows(start, was, before, p, s, d, false, o, c, 0);
        lemma_rows(middle, is, after, p, s, d, true, o, c, 0);
        assert(amount_at(group_at(start.order_strength, o), c) == total(
            before.packets@,
            order_strength_on(was, o, c),
        ));
        assert(total(after.packets@, order_strength_on(is, o, c)) <= u64::MAX);
    }
    assert forall|o: u128, c: Axial| #[trigger] count_at(group_at(last.sources, o), c) == total(
        after.sources@,
        sources_on(is, o, c),
    ) by {
        lemma_sums_differ(ids, local_player, before, changes, after, o, c, 0);
        lemma_rows(start, was, before, p, s, d, false, o, c, 0);
        lemma_rows(middle, is, after, p, s, d, true, o, c, 0);
        assert(count_at(group_at(start.sources, o), c) == total(
            before.sources@,
            sources_on(was, o, c),
        ));
        assert(total(after.sources@, sources_on(is, o, c)) <= u32::MAX);
    }
    assert forall|o: u128, c: Axial| #[trigger] count_at(group_at(last.claims, o), c) == total(
        after.packets@,
        packet_claims(is, o, c),
    ) + total(after.destinations@, destination_claims(is, o, c)) by {
        lemma_sums_differ(ids, local_player, before, changes, after, o, c, 0);
        lemma_rows(start, was, before, p, s, d, false, o, c, 0);
        lemma_rows(middle, is, after, p, s, d, true, o, c, 0);
        assert(count_at(group_at(start.claims, o), c) == total(
            before.packets@,
            packet_claims(was, o, c),
        ) + total(before.destinations@, destination_claims(was, o, c)));
        assert(total(after.packets@, packet_claims(is, o, c)) + total(
            after.destinations@,
            destination_claims(is, o, c),
        ) <= u32::MAX);
    }
    assert forall|o: u128, c: Axial| #[trigger]
        amount_at(group_at(last.reservations, o), c) == total(
            after.destinations@,
            reserved_on(is, o, c),
        ) by {
        lemma_sums_differ(ids, local_player, before, changes, after, o, c, 0);
        lemma_rows(start, was, before, p, s, d, false, o, c, 0);
        lemma_rows(middle, is, after, p, s, d, true, o, c, 0);
        assert(amount_at(group_at(start.reservations, o), c) == total(
            before.destinations@,
            reserved_on(was, o, c),
        ));
        assert(total(after.destinations@, reserved_on(is, o, c)) <= u64::MAX);
    }
    assert forall|e: u128, o: u128| #[trigger] count_at(group_at(last.crossings, e), o) == total(
        after.packets@,
        crosses(is, e, o),
    ) by {
        lemma_sums_differ(ids, local_player, before, changes, after, o, origin, e);
        lemma_rows(start, was, before, p, s, d, false, o, origin, e);
        lemma_rows(middle, is, after, p, s, d, true, o, origin, e);
        assert(count_at(group_at(start.crossings, e), o) == total(
            before.packets@,
            crosses(was, e, o),
        ));
        assert(total(after.packets@, crosses(is, e, o)) <= u32::MAX);
    }
}

/// The rows that changes touch are the same before and after them: an impact
/// that looks at both sees no more than one that looks before.
pub proof fn law_touched_rows_are_known_before(
    before: TacticalCache,
    changes: TacticalChanges,
    after: TacticalCache,
    k: u128,
)
    requires
        after.has_rows_after(before, changes),
    ensures
        ({
            let orders = reoffered(before.orders@, changes.orders@);
            &&& follows(after.packets@, changes.routes@.dom(), k) || serves(
                after.packets@,
                orders,
                k,
            ) ==> touched_packets(before, changes).contains(k)
            &&& after.sources@.contains_key(k) && orders.contains(
                after.sources@[k].order_id as u128,
            ) ==> touched_sources(before, changes).contains(k)
            &&& after.destinations@.contains_key(k) && orders.contains(
                after.destinations@[k].order_id as u128,
            ) ==> touched_destinations(before, changes).contains(k)
        }),
{
}

/// Counting a cell keeps what is noted in step.
proof fn lemma_noted(
    counts: Map<u128, Map<Axial, u32>>,
    sets: Map<u128, Set<Axial>>,
    group: u128,
    c: Axial,
    adding: bool,
)
    requires
        is_noted(counts, sets),
    ensures
        is_noted(counted(counts, group, c, adding), noted(sets, counts, group, c, adding)),
{
    let entries = group_at(counts, group);
    let after = counted(counts, group, c, adding);
    let shown = noted(sets, counts, group, c, adding);
    assert(counts.contains_key(group) == counts.dom().contains(group));
    assert(sets.contains_key(group) == sets.dom().contains(group));
    assert(set_at(sets, group) =~= entries.dom());
    assert(entries.remove(c).dom() =~= entries.dom().remove(c));
    assert(after.dom() =~= shown.dom());
    assert forall|o: u128| #[trigger] shown.contains_key(o) implies shown[o] == after[o].dom() by {
        if o != group {
            assert(sets.contains_key(o));
        }
        assert(shown[o] =~= after[o].dom());
    }
}

/// Where all that is counted is on view, it is so after any rows came or went.
pub proof fn law_counted_cells_stay_on_view(
    offers: Offers,
    scene: Scene,
    cache: TacticalCache,
    packets: Set<u128>,
    sources: Set<u128>,
    destinations: Set<u128>,
    adding: bool,
)
    requires
        offers.is_whole(),
    ensures
        offers.with_rows(scene, cache, packets, sources, destinations, adding).is_whole(),
{
    let p = ordered_keys(packets);
    let s = ordered_keys(sources);
    lemma_packets_stay_on_view(offers, scene, cache.packets@, p, adding);
    let a = offers.with_packets(scene, cache.packets@, p, adding);
    lemma_sources_stay_on_view(a, scene, cache.sources@, s, adding);
    let b = a.with_sources(scene, cache.sources@, s, adding);
    lemma_destinations_stay_on_view(
        b,
        scene,
        cache.destinations@,
        ordered_keys(destinations),
        adding,
    );
}

proof fn lemma_packets_stay_on_view(
    offers: Offers,
    scene: Scene,
    rows: Map<u128, TransitPacket>,
    keys: Seq<u128>,
    adding: bool,
)
    requires
        offers.is_whole(),
    ensures
        offers.with_packets(scene, rows, keys, adding).is_whole(),
    decreases keys.len(),
{
    if keys.len() > 0 {
        lemma_packets_stay_on_view(offers, scene, rows, keys.drop_last(), adding);
        let before = offers.with_packets(scene, rows, keys.drop_last(), adding);
        let packet = rows[keys.last()];
        if let Some(destination) = scene.place(packet.destination_cell) {
            lemma_noted(
                before.claims,
                before.claim_cells,
                packet.order_id as u128,
                destination,
                adding,
            );
        }
    }
}

proof fn lemma_sources_stay_on_view(
    offers: Offers,
    scene: Scene,
    rows: Map<u128, TransferSource>,
    keys: Seq<u128>,
    adding: bool,
)
    requires
        offers.is_whole(),
    ensures
        offers.with_sources(scene, rows, keys, adding).is_whole(),
    decreases keys.len(),
{
    if keys.len() > 0 {
        lemma_sources_stay_on_view(offers, scene, rows, keys.drop_last(), adding);
        let before = offers.with_sources(scene, rows, keys.drop_last(), adding);
        let source = rows[keys.last()];
        if let Some(c) = scene.source_place(source) {
            lemma_noted(before.sources, before.source_cells, source.order_id as u128, c, adding);
        }
    }
}

proof fn lemma_destinations_stay_on_view(
    offers: Offers,
    scene: Scene,
    rows: Map<u128, TransferDestination>,
    keys: Seq<u128>,
    adding: bool,
)
    requires
        offers.is_whole(),
    ensures
        offers.with_destinations(scene, rows, keys, adding).is_whole(),
    decreases keys.len(),
{
    if keys.len() > 0 {
        lemma_destinations_stay_on_view(offers, scene, rows, keys.drop_last(), adding);
        let before = offers.with_destinations(scene, rows, keys.drop_last(), adding);
        let destination = rows[keys.last()];
        if let Some(c) = scene.destination_place(destination) {
            lemma_noted(
                before.claims,
                before.claim_cells,
                destination.order_id as u128,
                c,
                adding,
            );
        }
    }
}

} // verus!
