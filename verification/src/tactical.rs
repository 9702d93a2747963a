//! The client's picture of orders and movements, kept up to date row by row.
use vstd::prelude::*;
use crate::table::{
    apply_changes, file_under, files, is_lean, lemma_keys_are_distinct, lemma_take_more,
    remove_index_value, rows_after, Change, KeySet, Table,
};

verus! {

/// Soldiers on their way.
#[derive(Clone, Copy, Debug, Eq, PartialEq, Structural)]
pub struct TransitPacket {
    pub packet_key: u64,
    pub order_id: u64,
    /// The route that is followed; zero for a direct way.
    pub route_id: u64,
    pub owner_player_id: u16,
    pub current_cell: u32,
    pub destination_cell: u32,
    pub route_index: u32,
    pub infantry: u64,
}

#[derive(Debug)]
pub struct TransitRoute {
    pub route_id: u64,
    pub cells: Vec<u32>,
}

#[derive(Clone, Copy, Debug, Eq, PartialEq, Structural)]
pub struct CombatFront {
    pub front_key: u64,
    pub from_cell: u32,
    pub to_cell: u32,
    pub attacker_player_id: u16,
    pub defender_player_id: u16,
    pub attacker_engaged: u64,
    pub defender_engaged: u64,
    pub attacker_casualties: u64,
    pub queued_infantry: u64,
    pub frontage: u64,
}

#[derive(Clone, Copy, Debug, Eq, PartialEq, Structural)]
pub enum OrderStatus {
    Active,
    Finished,
}

#[derive(Clone, Copy, Debug, Eq, PartialEq, Structural)]
pub enum OrderKind {
    ExpandClusters,
    AttackClusters,
    PushFront,
    FrontRebalance,
    ExpandAll,
    Reshape,
}

#[derive(Clone, Copy, Debug, Eq, PartialEq, Structural)]
pub struct TransferOrder {
    pub order_id: u64,
    pub player_id: u16,
    pub status: OrderStatus,
    pub kind: OrderKind,
    pub client_command_id: u64,
}

#[derive(Clone, Copy, Debug, Eq, PartialEq, Structural)]
pub struct TransferSource {
    pub source_key: u128,
    pub order_id: u64,
    pub cell_id: u32,
    pub queued_infantry: u64,
}

#[derive(Clone, Copy, Debug, Eq, PartialEq, Structural)]
pub struct TransferDestination {
    pub destination_key: u128,
    pub order_id: u64,
    pub cell_id: u32,
    pub target_infantry: u64,
    pub received_infantry: u64,
}

/// Whether an index files every row under its group, and nothing else.
pub open spec fn is_indexed<R>(
    rows: Map<u128, R>,
    index: Map<u128, KeySet>,
    group: spec_fn(R) -> Option<u128>,
) -> bool {
    &&& is_lean(index)
    &&& forall|g: u128, k: u128| #[trigger]
        files(index, g, k) <==> rows.contains_key(k) && group(rows[k]) == Some(g)
}

pub open spec fn by_packet_order() -> spec_fn(TransitPacket) -> Option<u128> {
    |packet: TransitPacket| Some(packet.order_id as u128)
}

pub open spec fn by_packet_route() -> spec_fn(TransitPacket) -> Option<u128> {
    |packet: TransitPacket|
        if packet.route_id != 0 {
            Some(packet.route_id as u128)
        } else {
            None
        }
}

pub open spec fn by_source_order() -> spec_fn(TransferSource) -> Option<u128> {
    |source: TransferSource| Some(source.order_id as u128)
}

pub open spec fn by_destination_order() -> spec_fn(TransferDestination) -> Option<u128> {
    |destination: TransferDestination| Some(destination.order_id as u128)
}

fn packet_order(packet: &TransitPacket) -> (group: Option<u128>)
    ensures
        group == by_packet_order()(*packet),
{
    Some(packet.order_id as u128)
}

fn packet_route(packet: &TransitPacket) -> (group: Option<u128>)
    ensures
        group == by_packet_route()(*packet),
{
    if packet.route_id != 0 {
        Some(packet.route_id as u128)
    } else {
        None
    }
}

fn source_order(source: &TransferSource) -> (group: Option<u128>)
    ensures
        group == by_source_order()(*source),
{
    Some(source.order_id as u128)
}

fn destination_order(destination: &TransferDestination) -> (group: Option<u128>)
    ensures
        group == by_destination_order()(*destination),
{
    Some(destination.order_id as u128)
}

/// What an index files after the first of some changes.
spec fn is_refiled<R>(
    rows: Map<u128, R>,
    changes: Map<u128, Change<R>>,
    done: Seq<u128>,
    index: Map<u128, KeySet>,
    group: spec_fn(R) -> Option<u128>,
) -> bool {
    &&& is_lean(index)
    &&& forall|g: u128, k: u128| #[trigger]
        files(index, g, k) <==> if done.contains(k) {
            changes[k] is Some && group(changes[k].unwrap()) == Some(g)
        } else {
            rows.contains_key(k) && group(rows[k]) == Some(g)
        }
}

/// Brings an index up to date for changes of its rows.
fn refile<R, F: Fn(&R) -> Option<u128>>(
    index: &mut Table<KeySet>,
    rows: &Table<R>,
    changes: &Table<Change<R>>,
    grouping: F,
    Ghost(group): Ghost<spec_fn(R) -> Option<u128>>,
)
    requires
        forall|r: &R| #[trigger] grouping.requires((r,)),
        forall|r: &R, g: Option<u128>| #[trigger] grouping.ensures((r,), g) ==> g == group(*r),
        is_indexed(rows@, old(index)@, group),
    ensures
        is_indexed(rows_after(rows@, changes@), final(index)@, group),
{
    let keys = changes.keys();
    let mut i: usize = 0;
    assert(keys@.take(0) =~= Seq::<u128>::empty());
    proof {
        lemma_keys_are_distinct(keys@);
    }
    while i < keys.len()
        invariant
            i <= keys@.len(),
            keys@.no_duplicates(),
            keys@.to_set() == changes@.dom(),
            forall|r: &R| #[trigger] grouping.requires((r,)),
            forall|r: &R, g: Option<u128>| #[trigger] grouping.ensures((r,), g) ==> g == group(*r),
            is_refiled(rows@, changes@, keys@.take(i as int), index@, group),
        decreases keys.len() - i,
    {
        let key = keys[i];
        let ghost before = index@;
        proof {
            lemma_take_more(keys@, i as int);
            assert(keys@.to_set().contains(key));
        }
        let was: Option<u128> = match rows.get(key) {
            Some(row) => grouping(row),
            None => None,
        };
        let is: Option<u128> = match changes.get(key) {
            Some(change) => match change {
                Some(row) => grouping(row),
                None => None,
            },
            None => None,
        };
        if let Some(g) = was {
            remove_index_value(index, g, key);
        }
        if let Some(g) = is {
            file_under(index, g, key);
        }
        proof {
            assert forall|g: u128, k: u128| #[trigger]
                files(index@, g, k) <==> if keys@.take(i + 1).contains(k) {
                    changes@[k] is Some && group(changes@[k].unwrap()) == Some(g)
                } else {
                    rows@.contains_key(k) && group(rows@[k]) == Some(g)
                } by {
                assert(files(before, g, k) <==> if keys@.take(i as int).contains(k) {
                    changes@[k] is Some && group(changes@[k].unwrap()) == Some(g)
                } else {
                    rows@.contains_key(k) && group(rows@[k]) == Some(g)
                });
                assert(keys@.take(i + 1).contains(k) <==> keys@.take(i as int).contains(k) || k
                    == key);
            }
        }
        i += 1;
    }
    proof {
        assert(keys@.take(i as int) =~= keys@);
        let after = rows_after(rows@, changes@);
        assert forall|g: u128, k: u128| #[trigger]
            files(index@, g, k) <==> after.contains_key(k) && group(after[k]) == Some(g) by {
            assert(keys@.contains(k) <==> keys@.to_set().contains(k));
        }
    }
}

/// Files all rows anew.
fn index_all<R, F: Fn(&R) -> Option<u128>>(
    rows: &Table<R>,
    grouping: F,
    Ghost(group): Ghost<spec_fn(R) -> Option<u128>>,
) -> (index: Table<KeySet>)
    requires
        forall|r: &R| #[trigger] grouping.requires((r,)),
        forall|r: &R, g: Option<u128>| #[trigger] grouping.ensures((r,), g) ==> g == group(*r),
    ensures
        is_indexed(rows@, index@, group),
{
    let keys = rows.keys();
    let mut index: Table<KeySet> = Table::new();
    let mut i: usize = 0;
    assert(keys@.take(0) =~= Seq::<u128>::empty());
    proof {
        lemma_keys_are_distinct(keys@);
    }
    while i < keys.len()
        invariant
            i <= keys@.len(),
            keys@.no_duplicates(),
            keys@.to_set() == rows@.dom(),
            forall|r: &R| #[trigger] grouping.requires((r,)),
            forall|r: &R, g: Option<u128>| #[trigger] grouping.ensures((r,), g) ==> g == group(*r),
            is_lean(index@),
            forall|g: u128, k: u128| #[trigger]
                files(index@, g, k) <==> keys@.take(i as int).contains(k) && group(rows@[k]) == Some(
                    g,
                ),
        decreases keys.len() - i,
    {
        let key = keys[i];
        proof {
            lemma_take_more(keys@, i as int);
            assert(keys@.to_set().contains(key));
        }
        match rows.get(key) {
            Some(row) => {
                if let Some(g) = grouping(row) {
                    file_under(&mut index, g, key);
                }
            },
            None => {
                vstd::pervasive::unreached()
            },
        }
        i += 1;
    }
    proof {
        assert(keys@.take(i as int) =~= keys@);
        assert forall|g: u128, k: u128| #[trigger]
            files(index@, g, k) <==> rows@.contains_key(k) && group(rows@[k]) == Some(g) by {
            assert(keys@.contains(k) <==> keys@.to_set().contains(k));
        }
    }
    index
}

/// Rows that come and go.
#[derive(Debug)]
pub struct TacticalChanges {
    pub packets: Table<Change<TransitPacket>>,
    pub routes: Table<Change<TransitRoute>>,
    pub fronts: Table<Change<CombatFront>>,
    pub orders: Table<Change<TransferOrder>>,
    pub sources: Table<Change<TransferSource>>,
    pub destinations: Table<Change<TransferDestination>>,
}

impl TacticalChanges {
    pub open spec fn is_blank(&self) -> bool {
        &&& self.packets@ == Map::<u128, Change<TransitPacket>>::empty()
        &&& self.routes@ == Map::<u128, Change<TransitRoute>>::empty()
        &&& self.fronts@ == Map::<u128, Change<CombatFront>>::empty()
        &&& self.orders@ == Map::<u128, Change<TransferOrder>>::empty()
        &&& self.sources@ == Map::<u128, Change<TransferSource>>::empty()
        &&& self.destinations@ == Map::<u128, Change<TransferDestination>>::empty()
    }

    pub fn new() -> (changes: TacticalChanges)
        ensures
            changes.is_blank(),
    {
        TacticalChanges {
            packets: Table::new(),
            routes: Table::new(),
            fronts: Table::new(),
            orders: Table::new(),
            sources: Table::new(),
            destinations: Table::new(),
        }
    }
}

/// The rows that the client knows, and where to find them.
#[derive(Debug)]
pub struct TacticalCache {
    pub packets: Table<TransitPacket>,
    pub packet_ids_by_order: Table<KeySet>,
    pub packet_ids_by_route: Table<KeySet>,
    pub routes: Table<TransitRoute>,
    pub fronts: Table<CombatFront>,
    pub orders: Table<TransferOrder>,
    pub sources: Table<TransferSource>,
    pub source_keys_by_order: Table<KeySet>,
    pub destinations: Table<TransferDestination>,
    pub destination_keys_by_order: Table<KeySet>,
}

impl TacticalCache {
    /// Whether the indexes tell of the rows.
    pub open spec fn is_sound(&self) -> bool {
        &&& is_indexed(self.packets@, self.packet_ids_by_order@, by_packet_order())
        &&& is_indexed(self.packets@, self.packet_ids_by_route@, by_packet_route())
        &&& is_indexed(self.sources@, self.source_keys_by_order@, by_source_order())
        &&& is_indexed(
            self.destinations@,
            self.destination_keys_by_order@,
            by_destination_order(),
        )
    }

    /// Whether the rows are those of another picture after changes.
    pub open spec fn has_rows_after(&self, before: TacticalCache, changes: TacticalChanges) -> bool {
        &&& self.packets@ == rows_after(before.packets@, changes.packets@)
        &&& self.routes@ == rows_after(before.routes@, changes.routes@)
        &&& self.fronts@ == rows_after(before.fronts@, changes.fronts@)
        &&& self.orders@ == rows_after(before.orders@, changes.orders@)
        &&& self.sources@ == rows_after(before.sources@, changes.sources@)
        &&& self.destinations@ == rows_after(before.destinations@, changes.destinations@)
    }

    pub open spec fn is_blank(&self) -> bool {
        &&& self.packets@ == Map::<u128, TransitPacket>::empty()
        &&& self.routes@ == Map::<u128, TransitRoute>::empty()
        &&& self.fronts@ == Map::<u128, CombatFront>::empty()
        &&& self.orders@ == Map::<u128, TransferOrder>::empty()
        &&& self.sources@ == Map::<u128, TransferSource>::empty()
        &&& self.destinations@ == Map::<u128, TransferDestination>::empty()
    }

    pub fn new() -> (cache: TacticalCache)
        ensures
            cache.is_blank(),
            cache.is_sound(),
    {
        let cache = TacticalCache {
            packets: Table::new(),
            packet_ids_by_order: Table::new(),
            packet_ids_by_route: Table::new(),
            routes: Table::new(),
            fronts: Table::new(),
            orders: Table::new(),
            sources: Table::new(),
            source_keys_by_order: Table::new(),
            destinations: Table::new(),
            destination_keys_by_order: Table::new(),
        };
        cache
    }

    /// Applies changes of rows and keeps the indexes.
    pub fn apply(&mut self, changes: TacticalChanges)
        requires
            old(self).is_sound(),
        ensures
            final(self).is_sound(),
            final(self).has_rows_after(*old(self), changes),
    {
        refile(
            &mut self.packet_ids_by_order,
            &self.packets,
            &changes.packets,
            packet_order,
            Ghost(by_packet_order()),
        );
        refile(
            &mut self.packet_ids_by_route,
            &self.packets,
            &changes.packets,
            packet_route,
            Ghost(by_packet_route()),
        );
        refile(
            &mut self.source_keys_by_order,
            &self.sources,
            &changes.sources,
            source_order,
            Ghost(by_source_order()),
        );
        refile(
            &mut self.destination_keys_by_order,
            &self.destinations,
            &changes.destinations,
            destination_order,
            Ghost(by_destination_order()),
        );
        apply_changes(&mut self.packets, changes.packets);
        apply_changes(&mut self.routes, changes.routes);
        apply_changes(&mut self.fronts, changes.fronts);
        apply_changes(&mut self.orders, changes.orders);
        apply_changes(&mut self.sources, changes.sources);
        apply_changes(&mut self.destinations, changes.destinations);
    }

    /// Makes the indexes anew.
    pub fn rebuild_indexes(&mut self)
        ensures
            final(self).is_sound(),
            final(self).packets == old(self).packets,
            final(self).routes == old(self).routes,
            final(self).fronts == old(self).fronts,
            final(self).orders == old(self).orders,
            final(self).sources == old(self).sources,
            final(self).destinations == old(self).destinations,
    {
        self.packet_ids_by_order = index_all(&self.packets, packet_order, Ghost(by_packet_order()));
        self.packet_ids_by_route = index_all(&self.packets, packet_route, Ghost(by_packet_route()));
        self.source_keys_by_order = index_all(&self.sources, source_order, Ghost(by_source_order()));
        self.destination_keys_by_order =
        index_all(&self.destinations, destination_order, Ghost(by_destination_order()));
    }

    /// A picture of complete tables; of the orders, the active ones are kept.
    pub fn capture(
        packets: Vec<TransitPacket>,
        routes: Vec<TransitRoute>,
        fronts: Vec<CombatFront>,
        orders: Vec<TransferOrder>,
        sources: Vec<TransferSource>,
        destinations: Vec<TransferDestination>,
    ) -> (cache: TacticalCache)
        ensures
            cache.is_sound(),
            cache.packets@ == keyed(packets@, packet_key()),
            cache.routes@ == keyed(routes@, route_key()),
            cache.fronts@ == keyed(fronts@, front_key()),
            cache.orders@ == keyed(orders@, active_order_key()),
            cache.sources@ == keyed(sources@, source_key()),
            cache.destinations@ == keyed(destinations@, destination_key()),
    {
        let mut cache = TacticalCache::new();
        let mut i: usize = 0;
        assert(packets@.take(0) =~= Seq::<TransitPacket>::empty());
        while i < packets.len()
            invariant
                i <= packets@.len(),
                cache.packets@ == keyed(packets@.take(i as int), packet_key()),
                cache.routes@ == Map::<u128, TransitRoute>::empty(),
                cache.fronts@ == Map::<u128, CombatFront>::empty(),
                cache.orders@ == Map::<u128, TransferOrder>::empty(),
                cache.sources@ == Map::<u128, TransferSource>::empty(),
                cache.destinations@ == Map::<u128, TransferDestination>::empty(),
            decreases packets.len() - i,
        {
            assert(packets@.take(i + 1).drop_last() =~= packets@.take(i as int));
            cache.packets.insert(packets[i].packet_key as u128, packets[i]);
            i += 1;
        }
        assert(packets@.take(i as int) =~= packets@);
        cache.routes = file_routes(routes);
        cache.fronts = file_fronts(&fronts);
        cache.orders = file_orders(&orders);
        cache.sources = file_sources(&sources);
        cache.destinations = file_destinations(&destinations);
        cache.rebuild_indexes();
        cache
    }
}

/// The rows of a list under their keys; a row without one is left out.
pub open spec fn keyed<R>(list: Seq<R>, key: spec_fn(R) -> Option<u128>) -> Map<u128, R>
    decreases list.len(),
{
    if list.len() == 0 {
        Map::empty()
    } else {
        match key(list.last()) {
            Some(k) => keyed(list.drop_last(), key).insert(k, list.last()),
            None => keyed(list.drop_last(), key),
        }
    }
}

pub open spec fn packet_key() -> spec_fn(TransitPacket) -> Option<u128> {
    |packet: TransitPacket| Some(packet.packet_key as u128)
}

pub open spec fn route_key() -> spec_fn(TransitRoute) -> Option<u128> {
    |route: TransitRoute| Some(route.route_id as u128)
}

pub open spec fn front_key() -> spec_fn(CombatFront) -> Option<u128> {
    |front: CombatFront| Some(front.front_key as u128)
}

/// Orders that are not active have no place.
pub open spec fn active_order_key() -> spec_fn(TransferOrder) -> Option<u128> {
    |order: TransferOrder|
        if order.status == OrderStatus::Active {
            Some(order.order_id as u128)
        } else {
            None
        }
}

pub open spec fn source_key() -> spec_fn(TransferSource) -> Option<u128> {
    |source: TransferSource| Some(source.source_key)
}

pub open spec fn destination_key() -> spec_fn(TransferDestination) -> Option<u128> {
    |destination: TransferDestination| Some(destination.destination_key)
}

fn file_routes(routes: Vec<TransitRoute>) -> (table: Table<TransitRoute>)
    ensures
        table@ == keyed(routes@, route_key()),
{
    let ghost all = routes@;
    let mut table: Table<TransitRoute> = Table::new();
    assert(all.take(0) =~= Seq::<TransitRoute>::empty());
    for route in it: routes
        invariant
            it.seq() == all,
            table@ == keyed(all.take(it.index() as int), route_key()),
    {
        assert(all.take(it.index() + 1).drop_last() =~= all.take(it.index() as int));
        assert(all.take(it.index() + 1).last() == route);
        table.insert(route.route_id as u128, route);
    }
    assert(all.take(all.len() as int) =~= all);
    table
}

fn file_fronts(fronts: &Vec<CombatFront>) -> (table: Table<CombatFront>)
    ensures
        table@ == keyed(fronts@, front_key()),
{
    let mut table: Table<CombatFront> = Table::new();
    let mut i: usize = 0;
    assert(fronts@.take(0) =~= Seq::<CombatFront>::empty());
    while i < fronts.len()
        invariant
            i <= fronts@.len(),
            table@ == keyed(fronts@.take(i as int), front_key()),
        decreases fronts.len() - i,
    {
        assert(fronts@.take(i + 1).drop_last() =~= fronts@.take(i as int));
        table.insert(fronts[i].front_key as u128, fronts[i]);
        i += 1;
    }
    assert(fronts@.take(i as int) =~= fronts@);
    table
}

fn file_orders(orders: &Vec<TransferOrder>) -> (table: Table<TransferOrder>)
    ensures
        table@ == keyed(orders@, active_order_key()),
{
    let mut table: Table<TransferOrder> = Table::new();
    let mut i: usize = 0;
    assert(orders@.take(0) =~= Seq::<TransferOrder>::empty());
    while i < orders.len()
        invariant
            i <= orders@.len(),
            table@ == keyed(orders@.take(i as int), active_order_key()),
        decreases orders.len() - i,
    {
        assert(orders@.take(i + 1).drop_last() =~= orders@.take(i as int));
        if orders[i].status == OrderStatus::Active {
            table.insert(orders[i].order_id as u128, orders[i]);
        }
        i += 1;
    }
    assert(orders@.take(i as int) =~= orders@);
    table
}

fn file_sources(sources: &Vec<TransferSource>) -> (table: Table<TransferSource>)
    ensures
        table@ == keyed(sources@, source_key()),
{
    let mut table: Table<TransferSource> = Table::new();
    let mut i: usize = 0;
    assert(sources@.take(0) =~= Seq::<TransferSource>::empty());
    while i < sources.len()
        invariant
            i <= sources@.len(),
            table@ == keyed(sources@.take(i as int), source_key()),
        decreases sources.len() - i,
    {
        assert(sources@.take(i + 1).drop_last() =~= sources@.take(i as int));
        table.insert(sources[i].source_key, sources[i]);
        i += 1;
    }
    assert(sources@.take(i as int) =~= sources@);
    table
}

fn file_destinations(destinations: &Vec<TransferDestination>) -> (table: Table<TransferDestination>)
    ensures
        table@ == keyed(destinations@, destination_key()),
{
    let mut table: Table<TransferDestination> = Table::new();
    let mut i: usize = 0;
    assert(destinations@.take(0) =~= Seq::<TransferDestination>::empty());
    while i < destinations.len()
        invariant
            i <= destinations@.len(),
            table@ == keyed(destinations@.take(i as int), destination_key()),
        decreases destinations.len() - i,
    {
        assert(destinations@.take(i + 1).drop_last() =~= destinations@.take(i as int));
        table.insert(destinations[i].destination_key, destinations[i]);
        i += 1;
    }
    assert(destinations@.take(i as int) =~= destinations@);
    table
}

/// Changes that come one after the other can be gathered: the later ones win.
pub proof fn law_changes_can_be_gathered<R>(
    rows: Map<u128, R>,
    first: Map<u128, Change<R>>,
    second: Map<u128, Change<R>>,
)
    ensures
        rows_after(rows_after(rows, first), second) == rows_after(
            rows,
            first.union_prefer_right(second),
        ),
{
    assert(rows_after(rows_after(rows, first), second) =~= rows_after(
        rows,
        first.union_prefer_right(second),
    ));
}

} // verus!
