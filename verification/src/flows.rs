//! The movements that the view shows.
use vstd::prelude::*;
use crate::coord::Axial;
use crate::impact::{flow_differs, follows, redrawn, row_at, serves};
use crate::projection::{CellBoard, CellView};
use crate::table::{lemma_keys_are_distinct, lemma_take_more, KeySet, Table};
use crate::tactical::{TacticalCache, TacticalChanges, TransitPacket, TransitRoute};

verus! {

/// Soldiers on their way, as the view shows them.
#[derive(Debug)]
pub struct ActiveFlow {
    pub route: Vec<Axial>,
    pub strength: u64,
    pub attacking: bool,
}

pub ghost struct Flow {
    pub route: Seq<Axial>,
    pub strength: u64,
    pub attacking: bool,
}

impl View for ActiveFlow {
    type V = Flow;

    open spec fn view(&self) -> Flow {
        Flow { route: self.route@, strength: self.strength, attacking: self.attacking }
    }
}

/// The cells of a packet's way; a packet without a route goes straight.
pub open spec fn way(packet: TransitPacket, routes: Map<u128, TransitRoute>) -> Option<Seq<u32>> {
    if packet.route_id == 0 {
        if packet.current_cell == packet.destination_cell {
            Some(seq![packet.current_cell])
        } else {
            Some(seq![packet.current_cell, packet.destination_cell])
        }
    } else if routes.contains_key(packet.route_id as u128) {
        Some(routes[packet.route_id as u128].cells@)
    } else {
        None
    }
}

/// Copies a list of cells.
fn copied(cells: &Vec<u32>) -> (list: Vec<u32>)
    ensures
        list@ == cells@,
{
    let mut list: Vec<u32> = Vec::new();
    let mut i: usize = 0;
    while i < cells.len()
        invariant
            i <= cells@.len(),
            list@ =~= cells@.take(i as int),
        decreases cells.len() - i,
    {
        list.push(cells[i]);
        i += 1;
    }
    assert(cells@.take(i as int) =~= cells@);
    list
}

pub fn resolved_packet_route(packet: &TransitPacket, routes: &Table<TransitRoute>) -> (route: Option<
    Vec<u32>,
>)
    ensures
        match route {
            Some(list) => way(*packet, routes@) == Some(list@),
            None => way(*packet, routes@) is None,
        },
{
    if packet.route_id == 0 {
        let mut list: Vec<u32> = Vec::new();
        list.push(packet.current_cell);
        if packet.current_cell != packet.destination_cell {
            list.push(packet.destination_cell);
            assert(list@ =~= seq![packet.current_cell, packet.destination_cell]);
        } else {
            assert(list@ =~= seq![packet.current_cell]);
        }
        return Some(list);
    }
    match routes.get(packet.route_id as u128) {
        Some(route) => Some(copied(&route.cells)),
        None => None,
    }
}

/// The places of the cells that have one.
pub open spec fn placed(ids: Map<u128, Axial>, cells: Seq<u32>) -> Seq<Axial>
    decreases cells.len(),
{
    if cells.len() == 0 {
        seq![]
    } else if ids.contains_key(cells.last() as u128) {
        placed(ids, cells.drop_last()).push(ids[cells.last() as u128])
    } else {
        placed(ids, cells.drop_last())
    }
}

/// What is left of a way.
pub open spec fn rest_of_way(cells: Seq<u32>, index: u32) -> Seq<u32> {
    if index <= cells.len() {
        cells.skip(index as int)
    } else {
        seq![]
    }
}

/// Whether a packet goes to a cell of somebody else.
pub open spec fn is_attack(
    ids: Map<u128, Axial>,
    cells: Map<Axial, CellView>,
    packet: TransitPacket,
) -> bool {
    let key = packet.destination_cell as u128;
    ids.contains_key(key) && cells.contains_key(ids[key]) && match cells[ids[key]].owner {
        Some(player) => player != packet.owner_player_id as u32,
        None => false,
    }
}

/// What the view shows of a packet: nothing without an order, a way, and two
/// places on it to go between.
pub open spec fn flow_of(
    ids: Map<u128, Axial>,
    cells: Map<Axial, CellView>,
    packet: TransitPacket,
    routes: Map<u128, TransitRoute>,
    has_order: bool,
) -> Option<Flow> {
    if !has_order {
        None
    } else {
        match way(packet, routes) {
            None => None,
            Some(list) => {
                let route = placed(ids, rest_of_way(list, packet.route_index));
                if route.len() < 2 {
                    None
                } else {
                    Some(
                        Flow {
                            route,
                            strength: packet.infantry,
                            attacking: is_attack(ids, cells, packet),
                        },
                    )
                }
            },
        }
    }
}

pub fn packet_to_flow(
    board: &CellBoard,
    packet: &TransitPacket,
    routes: &Table<TransitRoute>,
    has_order: bool,
) -> (flow: Option<ActiveFlow>)
    ensures
        match flow {
            Some(f) => flow_of(
                board.id_to_coordinate@,
                board.cells@,
                *packet,
                routes@,
                has_order,
            ) == Some(f@),
            None => flow_of(board.id_to_coordinate@, board.cells@, *packet, routes@, has_order)
                is None,
        },
{
    if !has_order {
        return None;
    }
    let list = match resolved_packet_route(packet, routes) {
        Some(list) => list,
        None => return None,
    };
    let ghost ids = board.id_to_coordinate@;
    let ghost left = rest_of_way(list@, packet.route_index);
    let mut route: Vec<Axial> = Vec::new();
    let mut i: usize = if (packet.route_index as u64) < list.len() as u64 {
        packet.route_index as usize
    } else {
        list.len()
    };
    let ghost start = i as int;
    assert(left =~= list@.skip(start));
    assert(list@.subrange(start, start) =~= Seq::<u32>::empty());
    while i < list.len()
        invariant
            0 <= start <= i <= list@.len(),
            ids == board.id_to_coordinate@,
            route@ == placed(ids, list@.subrange(start, i as int)),
        decreases list.len() - i,
    {
        assert(list@.subrange(start, i + 1).drop_last() =~= list@.subrange(start, i as int));
        if let Some(c) = board.id_to_coordinate.get(list[i] as u128) {
            route.push(*c);
        }
        i += 1;
    }
    assert(list@.subrange(start, i as int) =~= left);
    if route.len() < 2 {
        return None;
    }
    let attacking: bool = match board.id_to_coordinate.get(packet.destination_cell as u128) {
        Some(c) => match board.cells.get(*c) {
            Some(cell) => match cell.owner {
                Some(player) => player != packet.owner_player_id as u32,
                None => false,
            },
            None => false,
        },
        None => false,
    };
    Some(ActiveFlow { route, strength: packet.infantry, attacking })
}

impl TacticalCache {
    /// What the view shows of the packet under a number.
    pub open spec fn flow_at(
        &self,
        ids: Map<u128, Axial>,
        cells: Map<Axial, CellView>,
        key: u128,
    ) -> Option<Flow> {
        if self.packets@.contains_key(key) {
            let packet = self.packets@[key];
            flow_of(
                ids,
                cells,
                packet,
                self.routes@,
                self.orders@.contains_key(packet.order_id as u128),
            )
        } else {
            None
        }
    }

    fn packet_flow(&self, board: &CellBoard, key: u128) -> (flow: Option<ActiveFlow>)
        ensures
            match flow {
                Some(f) => self.flow_at(board.id_to_coordinate@, board.cells@, key) == Some(f@),
                None => self.flow_at(board.id_to_coordinate@, board.cells@, key) is None,
            },
    {
        match self.packets.get(key) {
            Some(packet) => packet_to_flow(
                board,
                packet,
                &self.routes,
                self.orders.contains(packet.order_id as u128),
            ),
            None => None,
        }
    }
}

/// Whether a table shows what is to be shown under a number.
pub open spec fn shows(flows: Map<u128, ActiveFlow>, key: u128, flow: Option<Flow>) -> bool {
    match flow {
        Some(f) => flows.contains_key(key) && flows[key]@ == f,
        None => !flows.contains_key(key),
    }
}

/// The movements of all packets.
pub fn replace_authoritative_flows(board: &CellBoard, cache: &TacticalCache) -> (flows: Table<
    ActiveFlow,
>)
    ensures
        forall|k: u128| #[trigger]
            shows(flows@, k, cache.flow_at(board.id_to_coordinate@, board.cells@, k)),
{
    let listed = cache.packets.keys();
    let mut flows: Table<ActiveFlow> = Table::new();
    let mut i: usize = 0;
    let ghost ids = board.id_to_coordinate@;
    proof {
        lemma_keys_are_distinct(listed@);
    }
    while i < listed.len()
        invariant
            i <= listed@.len(),
            ids == board.id_to_coordinate@,
            listed@.no_duplicates(),
            forall|k: u128|
                #![trigger flows@.contains_key(k)]
                if listed@.take(i as int).contains(k) {
                    shows(flows@, k, cache.flow_at(ids, board.cells@, k))
                } else {
                    !flows@.contains_key(k)
                },
        decreases listed.len() - i,
    {
        let key = listed[i];
        let ghost was = flows@;
        proof {
            lemma_take_more(listed@, i as int);
        }
        if let Some(flow) = cache.packet_flow(board, key) {
            flows.insert(key, flow);
        }
        proof {
            assert forall|k: u128|
                #![trigger flows@.contains_key(k)]
                if listed@.take(i + 1).contains(k) {
                    shows(flows@, k, cache.flow_at(ids, board.cells@, k))
                } else {
                    !flows@.contains_key(k)
                } by {
                if listed@.take(i as int).contains(k) {
                    assert(shows(was, k, cache.flow_at(ids, board.cells@, k)));
                } else {
                    assert(!was.contains_key(k));
                }
            }
        }
        i += 1;
    }
    proof {
        assert(listed@.take(i as int) =~= listed@);
        assert forall|k: u128| #[trigger]
            shows(flows@, k, cache.flow_at(board.id_to_coordinate@, board.cells@, k)) by {
            assert(listed@.contains(k) <==> listed@.to_set().contains(k));
            if !listed@.contains(k) {
                assert(!flows@.contains_key(k));
            }
        }
    }
    flows
}

/// Brings the movements of some packets up to date.
pub fn update_authoritative_flows(
    flows: &mut Table<ActiveFlow>,
    board: &CellBoard,
    cache: &TacticalCache,
    packet_ids: &KeySet,
)
    ensures
        forall|k: u128|
            packet_ids@.contains(k) ==> #[trigger] shows(
                final(flows)@,
                k,
                cache.flow_at(board.id_to_coordinate@, board.cells@, k),
            ),
        forall|k: u128|
            !packet_ids@.contains(k) ==> (#[trigger] final(flows)@.contains_key(k) <==> old(
                flows,
            )@.contains_key(k)) && (old(flows)@.contains_key(k) ==> final(flows)@[k] == old(
                flows,
            )@[k]),
{
    let listed = packet_ids.to_vec();
    let mut i: usize = 0;
    let ghost ids = board.id_to_coordinate@;
    let ghost before = flows@;
    proof {
        lemma_keys_are_distinct(listed@);
    }
    while i < listed.len()
        invariant
            i <= listed@.len(),
            ids == board.id_to_coordinate@,
            listed@.no_duplicates(),
            forall|k: u128|
                #![trigger flows@.contains_key(k)]
                if listed@.take(i as int).contains(k) {
                    shows(flows@, k, cache.flow_at(ids, board.cells@, k))
                } else {
                    (flows@.contains_key(k) <==> before.contains_key(k)) && (before.contains_key(k)
                        ==> flows@[k] == before[k])
                },
        decreases listed.len() - i,
    {
        let key = listed[i];
        let ghost was = flows@;
        proof {
            lemma_take_more(listed@, i as int);
        }
        match cache.packet_flow(board, key) {
            Some(flow) => {
                flows.insert(key, flow);
            },
            None => {
                flows.remove(key);
            },
        }
        proof {
            assert forall|k: u128|
                #![trigger flows@.contains_key(k)]
                if listed@.take(i + 1).contains(k) {
                    shows(flows@, k, cache.flow_at(ids, board.cells@, k))
                } else {
                    (flows@.contains_key(k) <==> before.contains_key(k)) && (before.contains_key(k)
                        ==> flows@[k] == before[k])
                } by {
                if listed@.take(i as int).contains(k) {
                    assert(shows(was, k, cache.flow_at(ids, board.cells@, k)));
                } else {
                    assert(was.contains_key(k) <==> before.contains_key(k));
                }
            }
        }
        i += 1;
    }
    proof {
        assert(listed@.take(i as int) =~= listed@);
        assert forall|k: u128| listed@.contains(k) <==> packet_ids@.contains(k) by {
            assert(listed@.contains(k) <==> listed@.to_set().contains(k));
        }
        assert forall|k: u128| packet_ids@.contains(k) implies #[trigger] shows(
            flows@,
            k,
            cache.flow_at(board.id_to_coordinate@, board.cells@, k),
        ) by {}
        assert forall|k: u128| !packet_ids@.contains(k) implies (#[trigger] flows@.contains_key(k)
            <==> before.contains_key(k)) && (before.contains_key(k) ==> flows@[k] == before[k]) by {
            assert(!listed@.contains(k));
        }
    }
}

/// A packet that a batch of changes does not touch is shown as before: neither
/// it nor its route changes, and its order neither comes, nor goes, nor is of
/// another kind.
pub proof fn law_untouched_flows_stay(
    before: TacticalCache,
    changes: TacticalChanges,
    after: TacticalCache,
    ids: Map<u128, Axial>,
    cells: Map<Axial, CellView>,
    key: u128,
)
    requires
        after.has_rows_after(before, changes),
        !changes.packets@.contains_key(key),
        !follows(before.packets@, changes.routes@.dom(), key),
        !serves(before.packets@, redrawn(before.orders@, changes.orders@), key),
    ensures
        after.flow_at(ids, cells, key) == before.flow_at(ids, cells, key),
{
    if before.packets@.contains_key(key) {
        let packet = before.packets@[key];
        assert(after.packets@[key] == packet);
        let order = packet.order_id as u128;
        if changes.orders@.contains_key(order) {
            assert(!redrawn(before.orders@, changes.orders@).contains(order));
            assert(!flow_differs(row_at(before.orders@, order), changes.orders@[order]));
        }
        assert(after.orders@.contains_key(order) == before.orders@.contains_key(order));
        if packet.route_id != 0 {
            assert(!changes.routes@.dom().contains(packet.route_id as u128));
        }
        assert(way(packet, after.routes@) == way(packet, before.routes@));
    }
}

} // verus!
