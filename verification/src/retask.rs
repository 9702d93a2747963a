//! What the player's running orders hold, so that soldiers can be given a new
//! task.
use vstd::prelude::*;
use crate::axials::{AxialMap, AxialSet};
use crate::contest::{attacker_pressure, pressure};
use crate::coord::Axial;
use crate::flows::{resolved_packet_route, way};
use crate::impact::ProjectionImpact;
use crate::ledger::{
    adjust_counted_set, adjust_strength, counted, edge_key, group_at, noted, same_amounts,
    same_numbers, same_places, shifted, shifted_in, CellSets, Claims, Crossings, Strengths,
};
use crate::table::{
    ordered_keys, rows_in_order, KeySet, Table,
};
use crate::tactical::{
    CombatFront, OrderKind, OrderStatus, TacticalCache, TransferDestination, TransferOrder,
    TransferSource, TransitPacket, TransitRoute,
};

verus! {

/// What the projection of a row depends on besides the row.
pub ghost struct Scene {
    pub ids: Map<u128, Axial>,
    pub orders: Map<u128, TransferOrder>,
    pub routes: Map<u128, TransitRoute>,
    pub local_player: u32,
}

impl Scene {
    /// The running order of this player under a number.
    pub open spec fn local_order(self, order_id: u64) -> Option<TransferOrder> {
        let key = order_id as u128;
        if self.orders.contains_key(key) && self.orders[key].status == OrderStatus::Active
            && self.orders[key].player_id as u32 == self.local_player {
            Some(self.orders[key])
        } else {
            None
        }
    }

    pub open spec fn place(self, cell_id: u32) -> Option<Axial> {
        if self.ids.contains_key(cell_id as u128) {
            Some(self.ids[cell_id as u128])
        } else {
            None
        }
    }

    /// The place of a packet that counts: one of this player, under a running
    /// order.
    pub open spec fn packet_place(self, packet: TransitPacket) -> Option<Axial> {
        if packet.owner_player_id as u32 != self.local_player || self.local_order(packet.order_id)
            is None {
            None
        } else {
            self.place(packet.current_cell)
        }
    }

    /// The place of a source that counts.
    pub open spec fn source_place(self, source: TransferSource) -> Option<Axial> {
        if self.local_order(source.order_id) is None {
            None
        } else {
            self.place(source.cell_id)
        }
    }

    /// The place of a destination that counts: one that still waits for
    /// somebody.
    pub open spec fn destination_place(self, destination: TransferDestination) -> Option<Axial> {
        if self.local_order(destination.order_id) is None || outstanding(destination) == 0 {
            None
        } else {
            self.place(destination.cell_id)
        }
    }

    /// Whether soldiers that are to come to a destination are reserved there.
    pub open spec fn reserves(self, destination: TransferDestination) -> bool {
        match self.local_order(destination.order_id) {
            Some(order) => order.kind == OrderKind::Reshape || order.kind
                == OrderKind::FrontRebalance,
            None => false,
        }
    }

    /// The next cell on a packet's way.
    pub open spec fn next_cell(self, packet: TransitPacket) -> Option<u32> {
        match way(packet, self.routes) {
            Some(list) => if packet.route_index + 1 < list.len() {
                Some(list[packet.route_index + 1])
            } else {
                None
            },
            None => None,
        }
    }
}

/// Whether the cells that are counted are those that are noted.
pub open spec fn is_noted(counts: Map<u128, Map<Axial, u32>>, sets: Map<u128, Set<Axial>>) -> bool {
    &&& counts.dom() == sets.dom()
    &&& forall|o: u128| #[trigger] sets.contains_key(o) ==> sets[o] == counts[o].dom()
}

/// How many soldiers a destination waits for.
pub open spec fn outstanding(destination: TransferDestination) -> u64 {
    if destination.target_infantry > destination.received_infantry {
        (destination.target_infantry - destination.received_infantry) as u64
    } else {
        0
    }
}

/// What running orders hold. Sources, claims and crossings are counted row by
/// row; beside the counts stand the cells that are on view.
pub ghost struct Offers {
    pub strength: Map<Axial, u64>,
    pub order_strength: Map<u128, Map<Axial, u64>>,
    pub sources: Map<u128, Map<Axial, u32>>,
    pub source_cells: Map<u128, Set<Axial>>,
    pub claims: Map<u128, Map<Axial, u32>>,
    pub claim_cells: Map<u128, Set<Axial>>,
    pub reservations: Map<u128, Map<Axial, u64>>,
    pub crossings: Map<u128, Map<u128, u32>>,
}

impl Offers {
    pub open spec fn nothing() -> Offers {
        Offers {
            strength: Map::empty(),
            order_strength: Map::empty(),
            sources: Map::empty(),
            source_cells: Map::empty(),
            claims: Map::empty(),
            claim_cells: Map::empty(),
            reservations: Map::empty(),
            crossings: Map::empty(),
        }
    }

    /// With nothing on view any more. The counts stay.
    pub open spec fn hidden(self) -> Offers {
        Offers {
            sources: self.sources,
            claims: self.claims,
            crossings: self.crossings,
            ..Offers::nothing()
        }
    }

    /// Whether all that is counted is on view.
    pub open spec fn is_whole(self) -> bool {
        is_noted(self.sources, self.source_cells) && is_noted(self.claims, self.claim_cells)
    }

    /// With, or without, a packet: its soldiers stand where they are, its
    /// destination is claimed, and its next edge is crossed.
    pub open spec fn with_packet(self, scene: Scene, packet: TransitPacket, adding: bool) -> Offers {
        let order = packet.order_id as u128;
        match scene.packet_place(packet) {
            None => self,
            Some(current) => Offers {
                strength: shifted(self.strength, current, packet.infantry, adding),
                order_strength: shifted_in(
                    self.order_strength,
                    order,
                    current,
                    packet.infantry,
                    adding,
                ),
                claims: match scene.place(packet.destination_cell) {
                    Some(destination) => counted(self.claims, order, destination, adding),
                    None => self.claims,
                },
                claim_cells: match scene.place(packet.destination_cell) {
                    Some(destination) => noted(
                        self.claim_cells,
                        self.claims,
                        order,
                        destination,
                        adding,
                    ),
                    None => self.claim_cells,
                },
                crossings: match scene.next_cell(packet) {
                    Some(next) => counted(
                        self.crossings,
                        edge_key(packet.current_cell, next),
                        order,
                        adding,
                    ),
                    None => self.crossings,
                },
                ..self
            },
        }
    }

    /// With, or without, a source.
    pub open spec fn with_source(self, scene: Scene, source: TransferSource, adding: bool) -> Offers {
        match scene.source_place(source) {
            None => self,
            Some(c) => Offers {
                sources: counted(self.sources, source.order_id as u128, c, adding),
                source_cells: noted(
                    self.source_cells,
                    self.sources,
                    source.order_id as u128,
                    c,
                    adding,
                ),
                ..self
            },
        }
    }

    /// With, or without, a destination: it is claimed, and inside one's own
    /// lines what is to come is reserved.
    pub open spec fn with_destination(
        self,
        scene: Scene,
        destination: TransferDestination,
        adding: bool,
    ) -> Offers {
        let order = destination.order_id as u128;
        match scene.destination_place(destination) {
            None => self,
            Some(c) => Offers {
                claims: counted(self.claims, order, c, adding),
                claim_cells: noted(self.claim_cells, self.claims, order, c, adding),
                reservations: if scene.reserves(destination) {
                    shifted_in(self.reservations, order, c, outstanding(destination), adding)
                } else {
                    self.reservations
                },
                ..self
            },
        }
    }

    /// With, or without, the packets under some numbers.
    pub open spec fn with_packets(
        self,
        scene: Scene,
        rows: Map<u128, TransitPacket>,
        keys: Seq<u128>,
        adding: bool,
    ) -> Offers
        decreases keys.len(),
    {
        if keys.len() == 0 {
            self
        } else {
            let before = self.with_packets(scene, rows, keys.drop_last(), adding);
            if rows.contains_key(keys.last()) {
                before.with_packet(scene, rows[keys.last()], adding)
            } else {
                before
            }
        }
    }

    pub open spec fn with_sources(
        self,
        scene: Scene,
        rows: Map<u128, TransferSource>,
        keys: Seq<u128>,
        adding: bool,
    ) -> Offers
        decreases keys.len(),
    {
        if keys.len() == 0 {
            self
        } else {
            let before = self.with_sources(scene, rows, keys.drop_last(), adding);
            if rows.contains_key(keys.last()) {
                before.with_source(scene, rows[keys.last()], adding)
            } else {
                before
            }
        }
    }

    pub open spec fn with_destinations(
        self,
        scene: Scene,
        rows: Map<u128, TransferDestination>,
        keys: Seq<u128>,
        adding: bool,
    ) -> Offers
        decreases keys.len(),
    {
        if keys.len() == 0 {
            self
        } else {
            let before = self.with_destinations(scene, rows, keys.drop_last(), adding);
            if rows.contains_key(keys.last()) {
                before.with_destination(scene, rows[keys.last()], adding)
            } else {
                before
            }
        }
    }

    /// With, or without, the rows under some numbers.
    pub open spec fn with_rows(
        self,
        scene: Scene,
        cache: TacticalCache,
        packets: Set<u128>,
        sources: Set<u128>,
        destinations: Set<u128>,
        adding: bool,
    ) -> Offers {
        self.with_packets(scene, cache.packets@, ordered_keys(packets), adding).with_sources(
            scene,
            cache.sources@,
            ordered_keys(sources),
            adding,
        ).with_destinations(scene, cache.destinations@, ordered_keys(destinations), adding)
    }
}

/// The player's running orders.
#[derive(Debug)]
pub struct RetaskBoard {
    pub active_strength_by_cell: AxialMap<u64>,
    pub order_strength_by_cell: Strengths,
    pub order_source_cells: CellSets,
    pub destination_claims_by_order: CellSets,
    pub destination_reservations_by_order: Strengths,
    pub active_order_ids: KeySet,
    pub handle_orders: AxialMap<KeySet>,
    pub source_counts: Claims,
    pub claim_counts: Claims,
    pub orders_by_edge: Crossings,
    /// Counts the changes of what is on view.
    pub revision: u64,
}

/// What is on view of the player's running orders.
pub ghost struct Display {
    pub strength: Map<Axial, u64>,
    pub order_strength: Map<u128, Map<Axial, u64>>,
    pub source_cells: Map<u128, Set<Axial>>,
    pub claim_cells: Map<u128, Set<Axial>>,
    pub reservations: Map<u128, Map<Axial, u64>>,
    pub active: Set<u128>,
    pub handles: Map<Axial, Set<u128>>,
}

impl Display {
    pub open spec fn nothing() -> Display {
        Display {
            strength: Map::empty(),
            order_strength: Map::empty(),
            source_cells: Map::empty(),
            claim_cells: Map::empty(),
            reservations: Map::empty(),
            active: Set::empty(),
            handles: Map::empty(),
        }
    }
}

/// What became of the player's running orders.
#[derive(Clone, Copy, Debug, Eq, PartialEq, Structural)]
pub enum RetaskChange {
    Untouched,
    Touched,
    Rebuilt,
}

/// The next revision; after the last comes the first.
pub open spec fn next_revision(revision: u64) -> u64 {
    if revision == u64::MAX {
        0
    } else {
        (revision + 1) as u64
    }
}

fn revised(revision: u64) -> (next: u64)
    ensures
        next == next_revision(revision),
{
    if revision == u64::MAX {
        0
    } else {
        revision + 1
    }
}

/// The context of a cache, for one player.
pub open spec fn scene_of(
    ids: Map<u128, Axial>,
    cache: TacticalCache,
    local_player: u32,
) -> Scene {
    Scene { ids, orders: cache.orders@, routes: cache.routes@, local_player }
}

/// The running order of a player under a number.
fn active_local_order(cache: &TacticalCache, local_player: u32, order_id: u64) -> (order: Option<
    TransferOrder,
>)
    ensures
        forall|ids: Map<u128, Axial>|
            order == #[trigger] scene_of(ids, *cache, local_player).local_order(order_id),
{
    match cache.orders.get(order_id as u128) {
        Some(order) => {
            if order.status == OrderStatus::Active && order.player_id as u32 == local_player {
                Some(*order)
            } else {
                None
            }
        },
        None => None,
    }
}

fn place_at(ids: &Table<Axial>, cell_id: u32) -> (c: Option<Axial>)
    ensures
        c == (if ids@.contains_key(cell_id as u128) {
            Some(ids@[cell_id as u128])
        } else {
            None
        }),
{
    match ids.get(cell_id as u128) {
        Some(c) => Some(*c),
        None => None,
    }
}

impl RetaskBoard {
    pub open spec fn offers(&self) -> Offers {
        Offers {
            strength: self.active_strength_by_cell@,
            order_strength: self.order_strength_by_cell@,
            sources: self.source_counts@,
            source_cells: self.order_source_cells@,
            claims: self.claim_counts@,
            claim_cells: self.destination_claims_by_order@,
            reservations: self.destination_reservations_by_order@,
            crossings: self.orders_by_edge@,
        }
    }

    /// What is on view.
    pub open spec fn display(&self) -> Display {
        Display {
            strength: self.active_strength_by_cell@,
            order_strength: self.order_strength_by_cell@,
            source_cells: self.order_source_cells@,
            claim_cells: self.destination_claims_by_order@,
            reservations: self.destination_reservations_by_order@,
            active: self.active_order_ids@,
            handles: self.handle_orders@.map_values(|s: KeySet| s@),
        }
    }

    pub fn new() -> (board: RetaskBoard)
        ensures
            board.offers() == Offers::nothing(),
            board.active_order_ids@ == Set::<u128>::empty(),
            board.handle_orders@ == Map::<Axial, KeySet>::empty(),
            board.display() == Display::nothing(),
            board.revision == 0,
    {
        let board = RetaskBoard {
            active_strength_by_cell: AxialMap::new(),
            order_strength_by_cell: Strengths::new(),
            order_source_cells: CellSets::new(),
            destination_claims_by_order: CellSets::new(),
            destination_reservations_by_order: Strengths::new(),
            active_order_ids: KeySet::new(),
            handle_orders: AxialMap::new(),
            source_counts: Claims::new(),
            claim_counts: Claims::new(),
            orders_by_edge: Crossings::new(),
            revision: 0,
        };
        assert(board.display().handles =~= Map::<Axial, Set<u128>>::empty());
        board
    }

    /// Whether two boards show the same.
    pub fn shows_as(&self, other: &RetaskBoard) -> (same: bool)
        ensures
            same == (self.display() == other.display()),
    {
        same_amounts(&self.active_strength_by_cell, &other.active_strength_by_cell)
            && self.order_strength_by_cell.is_same(&other.order_strength_by_cell)
            && self.order_source_cells.is_same(&other.order_source_cells)
            && self.destination_claims_by_order.is_same(&other.destination_claims_by_order)
            && self.destination_reservations_by_order.is_same(
            &other.destination_reservations_by_order,
        ) && same_numbers(&self.active_order_ids.to_vec(), &other.active_order_ids.to_vec())
            && same_handles(&self.handle_orders, &other.handle_orders)
    }

    /// Takes everything off the view. The counts stay, so that rows that go
    /// later are still counted down.
    pub fn withdraw(&mut self)
        ensures
            final(self).offers() == old(self).offers().hidden(),
            final(self).active_order_ids@ == Set::<u128>::empty(),
            final(self).handle_orders@ == Map::<Axial, KeySet>::empty(),
            final(self).display() == Display::nothing(),
            final(self).revision == (if old(self).display() == Display::nothing() {
                old(self).revision
            } else {
                next_revision(old(self).revision)
            }),
    {
        let bare = RetaskBoard::new();
        if !self.shows_as(&bare) {
            self.revision = revised(self.revision);
        }
        self.active_strength_by_cell = AxialMap::new();
        self.order_strength_by_cell = Strengths::new();
        self.order_source_cells = CellSets::new();
        self.destination_claims_by_order = CellSets::new();
        self.destination_reservations_by_order = Strengths::new();
        self.active_order_ids = KeySet::new();
        self.handle_orders = AxialMap::new();
        assert(self.display().handles =~= Map::<Axial, Set<u128>>::empty());
    }

    /// Counts an update that is through: rows that came or went always, a board
    /// that was worked out anew where it shows something else than the one
    /// before.
    pub fn settle(&mut self, change: RetaskChange, previous: &Option<RetaskBoard>)
        ensures
            final(self).offers() == old(self).offers(),
            final(self).display() == old(self).display(),
            final(self).revision == (match change {
                RetaskChange::Untouched => old(self).revision,
                RetaskChange::Touched => next_revision(old(self).revision),
                RetaskChange::Rebuilt => if previous is Some && previous.unwrap().display() == old(
                    self,
                ).display() {
                    old(self).revision
                } else {
                    next_revision(old(self).revision)
                },
            }),
    {
        let counts = match change {
            RetaskChange::Untouched => false,
            RetaskChange::Touched => true,
            RetaskChange::Rebuilt => match previous {
                Some(board) => !board.shows_as(self),
                None => true,
            },
        };
        if counts {
            self.revision = revised(self.revision);
        }
    }

    fn adjust_retask_packet(
        &mut self,
        ids: &Table<Axial>,
        cache: &TacticalCache,
        local_player: u32,
        packet: &TransitPacket,
        adding: bool,
    )
        ensures
            final(self).offers() == old(self).offers().with_packet(
                scene_of(ids@, *cache, local_player),
                *packet,
                adding,
            ),
            final(self).active_order_ids == old(self).active_order_ids,
            final(self).handle_orders == old(self).handle_orders,
            final(self).revision == old(self).revision,
    {
        let ghost scene = scene_of(ids@, *cache, local_player);
        if packet.owner_player_id as u32 != local_player {
            return;
        }
        let order = active_local_order(cache, local_player, packet.order_id);
        assert(order == scene.local_order(packet.order_id));
        if order.is_none() {
            return;
        }
        let current = match place_at(ids, packet.current_cell) {
            Some(c) => c,
            None => return,
        };
        adjust_strength(&mut self.active_strength_by_cell, current, packet.infantry, adding);
        self.order_strength_by_cell.adjust(packet.order_id, current, packet.infantry, adding);
        if let Some(destination) = place_at(ids, packet.destination_cell) {
            adjust_counted_set(
                &mut self.claim_counts,
                &mut self.destination_claims_by_order,
                packet.order_id,
                destination,
                adding,
            );
        }
        if let Some(route) = resolved_packet_route(packet, &cache.routes) {
            if (packet.route_index as u64) + 1 < route.len() as u64 {
                let next: u32 = route[packet.route_index as usize + 1];
                self.orders_by_edge.adjust(packet.current_cell, next, packet.order_id, adding);
            }
        }
    }

    fn adjust_retask_source(
        &mut self,
        ids: &Table<Axial>,
        cache: &TacticalCache,
        local_player: u32,
        source: &TransferSource,
        adding: bool,
    )
        ensures
            final(self).offers() == old(self).offers().with_source(
                scene_of(ids@, *cache, local_player),
                *source,
                adding,
            ),
            final(self).active_order_ids == old(self).active_order_ids,
            final(self).handle_orders == old(self).handle_orders,
            final(self).revision == old(self).revision,
    {
        let ghost scene = scene_of(ids@, *cache, local_player);
        let order = active_local_order(cache, local_player, source.order_id);
        assert(order == scene.local_order(source.order_id));
        if order.is_none() {
            return;
        }
        if let Some(c) = place_at(ids, source.cell_id) {
            adjust_counted_set(
                &mut self.source_counts,
                &mut self.order_source_cells,
                source.order_id,
                c,
                adding,
            );
        }
    }

    fn adjust_retask_destination(
        &mut self,
        ids: &Table<Axial>,
        cache: &TacticalCache,
        local_player: u32,
        destination: &TransferDestination,
        adding: bool,
    )
        ensures
            final(self).offers() == old(self).offers().with_destination(
                scene_of(ids@, *cache, local_player),
                *destination,
                adding,
            ),
            final(self).active_order_ids == old(self).active_order_ids,
            final(self).handle_orders == old(self).handle_orders,
            final(self).revision == old(self).revision,
    {
        let ghost scene = scene_of(ids@, *cache, local_player);
        let found = active_local_order(cache, local_player, destination.order_id);
        assert(found == scene.local_order(destination.order_id));
        let order = match found {
            Some(order) => order,
            None => return,
        };
        if destination.target_infantry <= destination.received_infantry {
            return;
        }
        let waiting: u64 = destination.target_infantry - destination.received_infantry;
        let c = match place_at(ids, destination.cell_id) {
            Some(c) => c,
            None => return,
        };
        adjust_counted_set(
            &mut self.claim_counts,
            &mut self.destination_claims_by_order,
            destination.order_id,
            c,
            adding,
        );
        if order.kind == OrderKind::Reshape || order.kind == OrderKind::FrontRebalance {
            self.destination_reservations_by_order.adjust(
                destination.order_id,
                c,
                waiting,
                adding,
            );
        }
    }

    /// Takes the rows that an impact names in, or out.
    pub fn apply_retask_row_changes(
        &mut self,
        ids: &Table<Axial>,
        cache: &TacticalCache,
        local_player: u32,
        impact: &ProjectionImpact,
        adding: bool,
    )
        ensures
            final(self).offers() == old(self).offers().with_rows(
                scene_of(ids@, *cache, local_player),
                *cache,
                impact.retask_packet_ids@,
                impact.retask_source_keys@,
                impact.retask_destination_keys@,
                adding,
            ),
            final(self).active_order_ids == old(self).active_order_ids,
            final(self).handle_orders == old(self).handle_orders,
            final(self).revision == old(self).revision,
    {
        let ghost scene = scene_of(ids@, *cache, local_player);
        let packets = impact.retask_packet_ids.to_vec();
        let sources = impact.retask_source_keys.to_vec();
        let destinations = impact.retask_destination_keys.to_vec();
        let ghost start = self.offers();
        let mut i: usize = 0;
        assert(packets@.take(0) =~= Seq::<u128>::empty());
        while i < packets.len()
            invariant
                i <= packets@.len(),
                scene == scene_of(ids@, *cache, local_player),
                self.offers() == start.with_packets(
                    scene,
                    cache.packets@,
                    packets@.take(i as int),
                    adding,
                ),
                self.active_order_ids == old(self).active_order_ids,
                self.handle_orders == old(self).handle_orders,
                self.revision == old(self).revision,
            decreases packets.len() - i,
        {
            assert(packets@.take(i + 1).drop_last() =~= packets@.take(i as int));
            match cache.packets.get(packets[i]) {
                Some(packet) => {
                    self.adjust_retask_packet(
                        ids,
                        cache,
                        local_player,
                        packet,
                        adding,
                    );
                },
                None => {},
            }
            i += 1;
        }
        assert(packets@.take(i as int) =~= packets@);
        let ghost middle = self.offers();
        let mut j: usize = 0;
        assert(sources@.take(0) =~= Seq::<u128>::empty());
        while j < sources.len()
            invariant
                j <= sources@.len(),
                scene == scene_of(ids@, *cache, local_player),
                self.offers() == middle.with_sources(
                    scene,
                    cache.sources@,
                    sources@.take(j as int),
                    adding,
                ),
                self.active_order_ids == old(self).active_order_ids,
                self.handle_orders == old(self).handle_orders,
                self.revision == old(self).revision,
            decreases sources.len() - j,
        {
            assert(sources@.take(j + 1).drop_last() =~= sources@.take(j as int));
            match cache.sources.get(sources[j]) {
                Some(source) => {
                    self.adjust_retask_source(
                        ids,
                        cache,
                        local_player,
                        source,
                        adding,
                    );
                },
                None => {},
            }
            j += 1;
        }
        assert(sources@.take(j as int) =~= sources@);
        let ghost last = self.offers();
        let mut k: usize = 0;
        assert(destinations@.take(0) =~= Seq::<u128>::empty());
        while k < destinations.len()
            invariant
                k <= destinations@.len(),
                scene == scene_of(ids@, *cache, local_player),
                self.offers() == last.with_destinations(
                    scene,
                    cache.destinations@,
                    destinations@.take(k as int),
                    adding,
                ),
                self.active_order_ids == old(self).active_order_ids,
                self.handle_orders == old(self).handle_orders,
                self.revision == old(self).revision,
            decreases destinations.len() - k,
        {
            assert(destinations@.take(k + 1).drop_last() =~= destinations@.take(k as int));
            match cache.destinations.get(destinations[k]) {
                Some(destination) => {
                    self.adjust_retask_destination(
                        ids,
                        cache,
                        local_player,
                        destination,
                        adding,
                    );
                },
                None => {},
            }
            k += 1;
        }
        assert(destinations@.take(k as int) =~= destinations@);
    }

    /// Notes which orders have soldiers.
    pub fn refresh_retask_order_kinds(&mut self)
        ensures
            final(self).active_order_ids@ == old(self).order_strength_by_cell@.dom(),
            final(self).offers() == old(self).offers(),
            final(self).handle_orders == old(self).handle_orders,
            final(self).revision == old(self).revision,
    {
        self.active_order_ids = self.order_strength_by_cell.order_ids();
    }

    /// Notes which orders can be taken hold of at the cells that they attack:
    /// those whose soldiers cross the edge of a front of this player that is
    /// still pressed.
    pub fn rebuild_retask_handles(
        &mut self,
        ids: &Table<Axial>,
        cache: &TacticalCache,
        local_player: u32,
        handles: &AxialSet,
    )
        ensures
            final(self).offers() == old(self).offers(),
            final(self).active_order_ids == old(self).active_order_ids,
            final(self).revision == old(self).revision,
            forall|c: Axial| #[trigger]
                final(self).handle_orders@.contains_key(c) <==> exists|k: u128| #[trigger]
                    holds(final(self).handle_orders@, c, k),
            forall|c: Axial, k: u128| #[trigger]
                holds(final(self).handle_orders@, c, k) <==> is_handle(
                    rows_in_order(cache.fronts@),
                    ids@,
                    local_player,
                    handles@,
                    old(self).orders_by_edge@,
                    c,
                    k,
                ),
    {
        let keys = cache.fronts.keys();
        let ghost rows = rows_in_order(cache.fronts@);
        let ghost crossings = self.orders_by_edge@;
        let mut found: AxialMap<KeySet> = AxialMap::new();
        let mut i: usize = 0;
        assert(rows.take(0) =~= Seq::<CombatFront>::empty());
        while i < keys.len()
            invariant
                i <= keys@.len(),
                rows == keys@.map_values(|k: u128| cache.fronts@[k]),
                keys@.to_set() == cache.fronts@.dom(),
                crossings == self.orders_by_edge@,
                self.offers() == old(self).offers(),
                self.active_order_ids == old(self).active_order_ids,
                self.revision == old(self).revision,
                forall|c: Axial| #[trigger]
                    found@.contains_key(c) ==> exists|k: u128| #[trigger] holds(found@, c, k),
                forall|c: Axial, k: u128| #[trigger]
                    holds(found@, c, k) <==> is_handle(
                        rows.take(i as int),
                        ids@,
                        local_player,
                        handles@,
                        crossings,
                        c,
                        k,
                    ),
            decreases keys.len() - i,
        {
            let key = keys[i];
            assert(keys@.to_set().contains(key));
            let front: CombatFront = match cache.fronts.get(key) {
                Some(front) => *front,
                None => vstd::pervasive::unreached(),
            };
            let ghost done = rows.take(i as int);
            let ghost was = found@;
            proof {
                assert(rows.take(i + 1) =~= done.push(front));
            }
            let mut handle: Option<Axial> = None;
            if front.attacker_player_id as u32 == local_player && attacker_pressure(&front) > 0 {
                handle = place_at(ids, front.to_cell);
            }
            if let Some(c) = handle {
                if handles.contains(c) {
                    let orders = self.orders_by_edge.orders_over(front.from_cell, front.to_cell);
                    if orders.len() > 0 {
                        hold(&mut found, c, &orders);
                    }
                    assert(orders@.len() == 0 ==> orders@.to_set() =~= Set::<u128>::empty());
                }
            }
            proof {
                assert forall|c: Axial, k: u128| #[trigger]
                    holds(found@, c, k) <==> is_handle(
                        done.push(front),
                        ids@,
                        local_player,
                        handles@,
                        crossings,
                        c,
                        k,
                    ) by {
                    lemma_handle_push(done, front, ids@, local_player, handles@, crossings, c, k);
                    assert(holds(was, c, k) <==> is_handle(
                        done,
                        ids@,
                        local_player,
                        handles@,
                        crossings,
                        c,
                        k,
                    ));
                    if handle is Some && handles@.contains(handle.unwrap()) {
                        let over = group_at(crossings, edge_key(front.from_cell, front.to_cell));
                        assert(over.dom().contains(k) == over.contains_key(k));
                    }
                }
            }
            i += 1;
        }
        assert(rows.take(i as int) =~= rows);
        self.handle_orders = found;
    }

    /// Works everything out anew, but for what can be taken hold of, and gives
    /// back what there was.
    pub fn rebuild_retask_indexes(
        &mut self,
        ids: &Table<Axial>,
        cache: &TacticalCache,
        local_player: u32,
    ) -> (previous: RetaskBoard)
        ensures
            previous == *old(self),
            final(self).revision == old(self).revision,
            final(self).offers() == Offers::nothing().with_rows(
                scene_of(ids@, *cache, local_player),
                *cache,
                cache.packets@.dom(),
                cache.sources@.dom(),
                cache.destinations@.dom(),
                true,
            ),
            final(self).active_order_ids@ == final(self).order_strength_by_cell@.dom(),
            final(self).handle_orders@ == Map::<Axial, KeySet>::empty(),
    {
        let mut fresh = RetaskBoard::new();
        let mut impact = ProjectionImpact::new();
        impact.retask_packet_ids.insert_all(&cache.packets.keys());
        impact.retask_source_keys.insert_all(&cache.sources.keys());
        impact.retask_destination_keys.insert_all(&cache.destinations.keys());
        proof {
            assert(impact.retask_packet_ids@ =~= cache.packets@.dom());
            assert(impact.retask_source_keys@ =~= cache.sources@.dom());
            assert(impact.retask_destination_keys@ =~= cache.destinations@.dom());
        }
        fresh.apply_retask_row_changes(ids, cache, local_player, &impact, true);
        fresh.refresh_retask_order_kinds();
        fresh.revision = self.revision;
        std::mem::swap(self, &mut fresh);
        fresh
    }
}

/// Whether an order is filed under a cell.
pub open spec fn holds(handles: Map<Axial, KeySet>, c: Axial, order: u128) -> bool {
    handles.contains_key(c) && handles[c]@.contains(order)
}

/// Files some orders under a cell.
fn hold(found: &mut AxialMap<KeySet>, c: Axial, orders: &Vec<u128>)
    requires
        orders@.len() > 0,
        forall|d: Axial| #[trigger]
            old(found)@.contains_key(d) ==> exists|k: u128| #[trigger] holds(old(found)@, d, k),
    ensures
        forall|d: Axial| #[trigger]
            final(found)@.contains_key(d) ==> exists|k: u128| #[trigger]
                holds(final(found)@, d, k),
        forall|d: Axial, k: u128| #[trigger]
            holds(final(found)@, d, k) <==> holds(old(found)@, d, k) || (d == c
                && orders@.to_set().contains(k)),
{
    let ghost before = found@;
    let mut set = match found.remove(c) {
        Some(set) => set,
        None => KeySet::new(),
    };
    set.insert_all(orders);
    found.insert(c, set);
    assert forall|d: Axial, k: u128| #[trigger]
        holds(found@, d, k) <==> holds(before, d, k) || (d == c && orders@.to_set().contains(k)) by {
        if d == c {
            assert(found@[d] == set);
        }
    }
    assert forall|d: Axial| #[trigger] found@.contains_key(d) implies exists|k: u128| #[trigger]
        holds(found@, d, k) by {
        if d == c {
            assert(orders@.to_set().contains(orders@[0]));
            assert(holds(found@, d, orders@[0]));
        } else {
            let k = choose|k: u128| #[trigger] holds(before, d, k);
            assert(holds(found@, d, k));
        }
    }
}

/// Whether the same orders are filed under the same cells.
fn same_handles(a: &AxialMap<KeySet>, b: &AxialMap<KeySet>) -> (same: bool)
    ensures
        same == (a@.map_values(|s: KeySet| s@) == b@.map_values(|s: KeySet| s@)),
{
    let ghost x = a@.map_values(|s: KeySet| s@);
    let ghost y = b@.map_values(|s: KeySet| s@);
    let keys = a.keys();
    let others = b.keys();
    assert(x.dom() =~= a@.dom());
    assert(y.dom() =~= b@.dom());
    if !same_places(&keys, &others) {
        return false;
    }
    let mut i: usize = 0;
    while i < keys.len()
        invariant
            i <= keys@.len(),
            x == a@.map_values(|s: KeySet| s@),
            y == b@.map_values(|s: KeySet| s@),
            x.dom() == a@.dom(),
            y.dom() == b@.dom(),
            keys@.to_set() == a@.dom(),
            keys@.to_set() == b@.dom(),
            forall|k: int| 0 <= k < i ==> x[#[trigger] keys@[k]] == y[keys@[k]],
        decreases keys.len() - i,
    {
        let key = keys[i];
        assert(keys@.to_set().contains(key));
        let (p, q) = match (a.get(key), b.get(key)) {
            (Some(p), Some(q)) => (p.to_vec(), q.to_vec()),
            _ => vstd::pervasive::unreached(),
        };
        assert(x[key] == a@[key]@);
        assert(y[key] == b@[key]@);
        if !same_numbers(&p, &q) {
            assert(x[key] != y[key]);
            return false;
        }
        i += 1;
    }
    proof {
        assert forall|c: Axial| x.contains_key(c) implies x[c] == y[c] by {
            assert(keys@.to_set().contains(c));
            let n = choose|n: int| 0 <= n < keys@.len() && keys@[n] == c;
            assert(x[keys@[n]] == y[keys@[n]]);
        }
        assert(x =~= y);
    }
    true
}

/// Whether an order can be taken hold of at a cell through a front.
pub open spec fn opens(
    front: CombatFront,
    ids: Map<u128, Axial>,
    local_player: u32,
    handles: Set<Axial>,
    crossings: Map<u128, Map<u128, u32>>,
    c: Axial,
    order: u128,
) -> bool {
    &&& front.attacker_player_id as u32 == local_player
    &&& pressure(front) > 0
    &&& ids.contains_key(front.to_cell as u128) && ids[front.to_cell as u128] == c
    &&& handles.contains(c)
    &&& group_at(crossings, edge_key(front.from_cell, front.to_cell)).contains_key(order)
}

/// Whether an order can be taken hold of at a cell.
pub open spec fn is_handle(
    fronts: Seq<CombatFront>,
    ids: Map<u128, Axial>,
    local_player: u32,
    handles: Set<Axial>,
    crossings: Map<u128, Map<u128, u32>>,
    c: Axial,
    order: u128,
) -> bool {
    exists|i: int|
        0 <= i < fronts.len() && #[trigger] opens(
            fronts[i],
            ids,
            local_player,
            handles,
            crossings,
            c,
            order,
        )
}

proof fn lemma_handle_push(
    fronts: Seq<CombatFront>,
    front: CombatFront,
    ids: Map<u128, Axial>,
    local_player: u32,
    handles: Set<Axial>,
    crossings: Map<u128, Map<u128, u32>>,
    c: Axial,
    order: u128,
)
    ensures
        is_handle(fronts.push(front), ids, local_player, handles, crossings, c, order) == (
        is_handle(fronts, ids, local_player, handles, crossings, c, order) || opens(
            front,
            ids,
            local_player,
            handles,
            crossings,
            c,
            order,
        )),
{
    let more = fronts.push(front);
    if is_handle(fronts, ids, local_player, handles, crossings, c, order) {
        let i = choose|i: int|
            0 <= i < fronts.len() && #[trigger] opens(
                fronts[i],
                ids,
                local_player,
                handles,
                crossings,
                c,
                order,
            );
        assert(opens(more[i], ids, local_player, handles, crossings, c, order));
    }
    if opens(front, ids, local_player, handles, crossings, c, order) {
        assert(opens(
            more[fronts.len() as int],
            ids,
            local_player,
            handles,
            crossings,
            c,
            order,
        ));
    }
    if is_handle(more, ids, local_player, handles, crossings, c, order) {
        let i = choose|i: int|
            0 <= i < more.len() && #[trigger] opens(
                more[i],
                ids,
                local_player,
                handles,
                crossings,
                c,
                order,
            );
        if i < fronts.len() {
            assert(opens(fronts[i], ids, local_player, handles, crossings, c, order));
        }
    }
}

} // verus!
