//! What the callbacks of a connection leave for the next frame.
use vstd::prelude::*;
use crate::tactical::{
    CombatFront, OrderStatus, TacticalChanges, TransferDestination, TransferOrder, TransferSource,
    TransitPacket, TransitRoute,
};
use crate::table::{rows_in_order, Change, KeySet, Table};

verus! {

pub const TERRAIN_DIRTY: u32 = 1;

pub const CELLS_DIRTY: u32 = 2;

pub const MATCH_DIRTY: u32 = 4;

pub const PLAYERS_DIRTY: u32 = 8;

pub const MOBILIZATION_DIRTY: u32 = 16;

pub const RECEIPTS_DIRTY: u32 = 32;

pub const FLOWS_DIRTY: u32 = 64;

pub const FRONTS_DIRTY: u32 = 128;

pub const ORDERS_DIRTY: u32 = 256;

pub const ALL_DIRTY: u32 = 511;

/// What is known of a cell besides its terrain.
#[derive(Clone, Copy, Debug, Eq, PartialEq, Structural)]
pub struct CellState {
    pub cell_id: u32,
    pub owner_player_id: u16,
    pub civilians: u64,
    pub infantry: u64,
    pub military_capacity: u64,
}

/// How a connection fares.
#[derive(Debug)]
pub enum LifecycleEvent {
    Connected { generation: u64 },
    BootstrapSubscribed { generation: u64 },
    TacticalSubscribed { generation: u64 },
    JoinFailed { generation: u64, reason: String },
    ConnectionFailed { generation: u64, reason: String },
    Disconnected { generation: u64, reason: String },
    CommandFailed { command_id: u64, reason: String },
    TokenWarning { generation: u64, message: String },
}

/// A row of a watched table that is there now, or that is gone.
#[derive(Debug)]
pub enum TableEvent {
    Terrain,
    CellWritten { cell: CellState },
    CellGone { cell_id: u32 },
    MatchConfig,
    MatchState,
    PlayerSlot,
    PlayerState,
    MobilizationPolicy,
    CommandReceipt,
    PacketWritten { row: TransitPacket },
    PacketGone { packet_key: u64 },
    RouteWritten { row: TransitRoute },
    RouteGone { route_id: u64 },
    FrontWritten { row: CombatFront },
    FrontGone { front_key: u64 },
    OrderWritten { row: TransferOrder },
    OrderGone { order_id: u64 },
    SourceWritten { row: TransferSource },
    SourceGone { source_key: u128 },
    DestinationWritten { row: TransferDestination },
    DestinationGone { destination_key: u128 },
}

/// Which parts of the view an event makes stale.
pub open spec fn stale(event: TableEvent) -> u32 {
    match event {
        TableEvent::Terrain => TERRAIN_DIRTY | CELLS_DIRTY,
        TableEvent::CellWritten { .. } => CELLS_DIRTY,
        TableEvent::CellGone { .. } => CELLS_DIRTY,
        TableEvent::MatchConfig => MATCH_DIRTY,
        TableEvent::MatchState => MATCH_DIRTY,
        TableEvent::PlayerSlot => PLAYERS_DIRTY,
        TableEvent::PlayerState => MATCH_DIRTY,
        TableEvent::MobilizationPolicy => MOBILIZATION_DIRTY,
        TableEvent::CommandReceipt => RECEIPTS_DIRTY,
        TableEvent::PacketWritten { .. } => FLOWS_DIRTY,
        TableEvent::PacketGone { .. } => FLOWS_DIRTY,
        TableEvent::RouteWritten { .. } => FLOWS_DIRTY,
        TableEvent::RouteGone { .. } => FLOWS_DIRTY,
        TableEvent::FrontWritten { .. } => FRONTS_DIRTY,
        TableEvent::FrontGone { .. } => FRONTS_DIRTY,
        TableEvent::OrderWritten { .. } => ORDERS_DIRTY,
        TableEvent::OrderGone { .. } => ORDERS_DIRTY,
        TableEvent::SourceWritten { .. } => ORDERS_DIRTY,
        TableEvent::SourceGone { .. } => ORDERS_DIRTY,
        TableEvent::DestinationWritten { .. } => ORDERS_DIRTY,
        TableEvent::DestinationGone { .. } => ORDERS_DIRTY,
    }
}

/// The pending rows of all kinds.
pub ghost struct Pending {
    pub cells: Map<u128, CellState>,
    pub absences: Set<u128>,
    pub packets: Map<u128, Change<TransitPacket>>,
    pub routes: Map<u128, Change<TransitRoute>>,
    pub fronts: Map<u128, Change<CombatFront>>,
    pub orders: Map<u128, Change<TransferOrder>>,
    pub sources: Map<u128, Change<TransferSource>>,
    pub destinations: Map<u128, Change<TransferDestination>>,
}

impl Pending {
    /// Nothing pending.
    pub open spec fn nothing() -> Pending {
        Pending {
            cells: Map::empty(),
            absences: Set::empty(),
            packets: Map::empty(),
            routes: Map::empty(),
            fronts: Map::empty(),
            orders: Map::empty(),
            sources: Map::empty(),
            destinations: Map::empty(),
        }
    }

    /// What is pending after one more event. The last word on a row counts; an
    /// order that is not active counts as gone.
    pub open spec fn with(self, event: TableEvent) -> Pending {
        match event {
            TableEvent::CellWritten { cell } => Pending {
                cells: self.cells.insert(cell.cell_id as u128, cell),
                absences: self.absences.remove(cell.cell_id as u128),
                ..self
            },
            TableEvent::CellGone { cell_id } => Pending {
                cells: self.cells.remove(cell_id as u128),
                absences: self.absences.insert(cell_id as u128),
                ..self
            },
            TableEvent::PacketWritten { row } => Pending {
                packets: self.packets.insert(row.packet_key as u128, Some(row)),
                ..self
            },
            TableEvent::PacketGone { packet_key } => Pending {
                packets: self.packets.insert(packet_key as u128, None),
                ..self
            },
            TableEvent::RouteWritten { row } => Pending {
                routes: self.routes.insert(row.route_id as u128, Some(row)),
                ..self
            },
            TableEvent::RouteGone { route_id } => Pending {
                routes: self.routes.insert(route_id as u128, None),
                ..self
            },
            TableEvent::FrontWritten { row } => Pending {
                fronts: self.fronts.insert(row.front_key as u128, Some(row)),
                ..self
            },
            TableEvent::FrontGone { front_key } => Pending {
                fronts: self.fronts.insert(front_key as u128, None),
                ..self
            },
            TableEvent::OrderWritten { row } => Pending {
                orders: self.orders.insert(
                    row.order_id as u128,
                    if row.status == OrderStatus::Active {
                        Some(row)
                    } else {
                        None
                    },
                ),
                ..self
            },
            TableEvent::OrderGone { order_id } => Pending {
                orders: self.orders.insert(order_id as u128, None),
                ..self
            },
            TableEvent::SourceWritten { row } => Pending {
                sources: self.sources.insert(row.source_key, Some(row)),
                ..self
            },
            TableEvent::SourceGone { source_key } => Pending {
                sources: self.sources.insert(source_key, None),
                ..self
            },
            TableEvent::DestinationWritten { row } => Pending {
                destinations: self.destinations.insert(row.destination_key, Some(row)),
                ..self
            },
            TableEvent::DestinationGone { destination_key } => Pending {
                destinations: self.destinations.insert(destination_key, None),
                ..self
            },
            _ => self,
        }
    }

    /// Whether no cell is both written and gone.
    pub open spec fn is_settled(self) -> bool {
        self.cells.dom().disjoint(self.absences)
    }
}

/// What has come in since the last frame.
#[derive(Debug)]
pub struct Signals {
    pub dirty: u32,
    pub cell_changes: Table<CellState>,
    pub cell_absences: KeySet,
    pub tactical: TacticalChanges,
    pub events: Vec<LifecycleEvent>,
}

impl Signals {
    pub open spec fn pending(&self) -> Pending {
        Pending {
            cells: self.cell_changes@,
            absences: self.cell_absences@,
            packets: self.tactical.packets@,
            routes: self.tactical.routes@,
            fronts: self.tactical.fronts@,
            orders: self.tactical.orders@,
            sources: self.tactical.sources@,
            destinations: self.tactical.destinations@,
        }
    }

    pub fn new() -> (signals: Signals)
        ensures
            signals.dirty == 0,
            signals.pending() == Pending::nothing(),
            signals.pending().is_settled(),
            signals.events@.len() == 0,
    {
        Signals {
            dirty: 0,
            cell_changes: Table::new(),
            cell_absences: KeySet::new(),
            tactical: TacticalChanges::new(),
            events: Vec::new(),
        }
    }

    /// Marks parts of the view as stale.
    pub fn mark(&mut self, bits: u32)
        ensures
            final(self).dirty == old(self).dirty | bits,
            final(self).pending() == old(self).pending(),
            final(self).events == old(self).events,
    {
        self.dirty = self.dirty | bits;
    }

    /// Takes the marks.
    pub fn take_dirty(&mut self) -> (bits: u32)
        ensures
            bits == old(self).dirty,
            final(self).dirty == 0,
            final(self).pending() == old(self).pending(),
            final(self).events == old(self).events,
    {
        let bits: u32 = self.dirty;
        self.dirty = 0;
        bits
    }

    /// Drops every pending row and mark, so that nothing of an earlier
    /// connection is applied to a new one.
    pub fn clear_pending_deltas(&mut self)
        ensures
            final(self).dirty == 0,
            final(self).pending() == Pending::nothing(),
            final(self).pending().is_settled(),
            final(self).events == old(self).events,
    {
        self.dirty = 0;
        self.cell_changes = Table::new();
        self.cell_absences = KeySet::new();
        self.tactical = TacticalChanges::new();
    }

    /// Takes note of what a watched table reports.
    pub fn observe(&mut self, event: TableEvent)
        requires
            old(self).pending().is_settled(),
        ensures
            final(self).pending() == old(self).pending().with(event),
            final(self).pending().is_settled(),
            final(self).dirty == old(self).dirty | stale(event),
            final(self).events == old(self).events,
    {
        let bits: u32 = match event {
            TableEvent::Terrain => TERRAIN_DIRTY | CELLS_DIRTY,
            TableEvent::CellWritten { cell } => {
                self.record_cell(cell);
                CELLS_DIRTY
            },
            TableEvent::CellGone { cell_id } => {
                self.record_cell_absence(cell_id);
                CELLS_DIRTY
            },
            TableEvent::MatchConfig => MATCH_DIRTY,
            TableEvent::MatchState => MATCH_DIRTY,
            TableEvent::PlayerSlot => PLAYERS_DIRTY,
            TableEvent::PlayerState => MATCH_DIRTY,
            TableEvent::MobilizationPolicy => MOBILIZATION_DIRTY,
            TableEvent::CommandReceipt => RECEIPTS_DIRTY,
            TableEvent::PacketWritten { row } => {
                self.tactical.packets.insert(row.packet_key as u128, Some(row));
                FLOWS_DIRTY
            },
            TableEvent::PacketGone { packet_key } => {
                self.tactical.packets.insert(packet_key as u128, None);
                FLOWS_DIRTY
            },
            TableEvent::RouteWritten { row } => {
                self.tactical.routes.insert(row.route_id as u128, Some(row));
                FLOWS_DIRTY
            },
            TableEvent::RouteGone { route_id } => {
                self.tactical.routes.insert(route_id as u128, None);
                FLOWS_DIRTY
            },
            TableEvent::FrontWritten { row } => {
                self.tactical.fronts.insert(row.front_key as u128, Some(row));
                FRONTS_DIRTY
            },
            TableEvent::FrontGone { front_key } => {
                self.tactical.fronts.insert(front_key as u128, None);
                FRONTS_DIRTY
            },
            TableEvent::OrderWritten { row } => {
                let change: Change<TransferOrder> = if row.status == OrderStatus::Active {
                    Some(row)
                } else {
                    None
                };
                self.tactical.orders.insert(row.order_id as u128, change);
                ORDERS_DIRTY
            },
            TableEvent::OrderGone { order_id } => {
                self.tactical.orders.insert(order_id as u128, None);
                ORDERS_DIRTY
            },
            TableEvent::SourceWritten { row } => {
                self.tactical.sources.insert(row.source_key, Some(row));
                ORDERS_DIRTY
            },
            TableEvent::SourceGone { source_key } => {
                self.tactical.sources.insert(source_key, None);
                ORDERS_DIRTY
            },
            TableEvent::DestinationWritten { row } => {
                self.tactical.destinations.insert(row.destination_key, Some(row));
                ORDERS_DIRTY
            },
            TableEvent::DestinationGone { destination_key } => {
                self.tactical.destinations.insert(destination_key, None);
                ORDERS_DIRTY
            },
        };
        proof {
            let before: u32 = old(self).dirty;
            assert((before | CELLS_DIRTY) | CELLS_DIRTY == before | CELLS_DIRTY) by (bit_vector);
        }
        self.mark(bits);
    }

    /// Takes note of a cell.
    pub fn record_cell(&mut self, cell: CellState)
        requires
            old(self).pending().is_settled(),
        ensures
            final(self).pending() == old(self).pending().with(TableEvent::CellWritten { cell }),
            final(self).pending().is_settled(),
            final(self).dirty == old(self).dirty | CELLS_DIRTY,
            final(self).events == old(self).events,
    {
        self.cell_absences.remove(cell.cell_id as u128);
        self.cell_changes.insert(cell.cell_id as u128, cell);
        self.mark(CELLS_DIRTY);
    }

    /// Takes note of a cell that is no longer reported.
    pub fn record_cell_absence(&mut self, cell_id: u32)
        requires
            old(self).pending().is_settled(),
        ensures
            final(self).pending() == old(self).pending().with(TableEvent::CellGone { cell_id }),
            final(self).pending().is_settled(),
            final(self).dirty == old(self).dirty | CELLS_DIRTY,
            final(self).events == old(self).events,
    {
        self.cell_changes.remove(cell_id as u128);
        self.cell_absences.insert(cell_id as u128);
        self.mark(CELLS_DIRTY);
    }

    /// Takes the cells that were written, by their numbers.
    pub fn take_cell_changes(&mut self) -> (cells: Vec<CellState>)
        ensures
            cells@ == rows_in_order(old(self).cell_changes@),
            final(self).pending() == (Pending { cells: Map::empty(), ..old(self).pending() }),
            final(self).dirty == old(self).dirty,
            final(self).events == old(self).events,
    {
        let mut taken: Table<CellState> = Table::new();
        std::mem::swap(&mut taken, &mut self.cell_changes);
        taken.into_rows()
    }

    /// Takes the cells that are gone.
    pub fn take_cell_absences(&mut self) -> (absences: KeySet)
        ensures
            absences@ == old(self).cell_absences@,
            final(self).pending() == (Pending { absences: Set::empty(), ..old(self).pending() }),
            final(self).dirty == old(self).dirty,
            final(self).events == old(self).events,
    {
        let mut taken = KeySet::new();
        std::mem::swap(&mut taken, &mut self.cell_absences);
        taken
    }

    /// Takes the changes of orders and movements.
    pub fn take_tactical_changes(&mut self) -> (changes: TacticalChanges)
        ensures
            changes == old(self).tactical,
            final(self).tactical.is_blank(),
            final(self).cell_changes == old(self).cell_changes,
            final(self).cell_absences == old(self).cell_absences,
            final(self).dirty == old(self).dirty,
            final(self).events == old(self).events,
    {
        let mut taken = TacticalChanges::new();
        std::mem::swap(&mut taken, &mut self.tactical);
        taken
    }

    /// Puts an event into the queue.
    pub fn push(&mut self, event: LifecycleEvent)
        ensures
            final(self).events@ == old(self).events@.push(event),
            final(self).pending() == old(self).pending(),
            final(self).dirty == old(self).dirty,
    {
        self.events.push(event);
    }

    /// Takes all events of the queue, the oldest first.
    pub fn drain(&mut self) -> (events: Vec<LifecycleEvent>)
        ensures
            events == old(self).events,
            final(self).events@.len() == 0,
            final(self).pending() == old(self).pending(),
            final(self).dirty == old(self).dirty,
    {
        let mut taken: Vec<LifecycleEvent> = Vec::new();
        std::mem::swap(&mut taken, &mut self.events);
        taken
    }
}

/// What is pending after a run of events.
pub open spec fn after_events(start: Pending, events: Seq<TableEvent>) -> Pending
    decreases events.len(),
{
    if events.len() == 0 {
        start
    } else {
        after_events(start, events.drop_last()).with(events.last())
    }
}

/// Whatever comes in, in whatever order: of each cell only the last word is
/// pending.
pub proof fn law_cells_stay_settled(start: Pending, events: Seq<TableEvent>)
    requires
        start.is_settled(),
    ensures
        after_events(start, events).is_settled(),
    decreases events.len(),
{
    if events.len() > 0 {
        law_cells_stay_settled(start, events.drop_last());
    }
}

} // verus!
