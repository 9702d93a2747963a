//! Which projected rows a batch of changes touches.
use vstd::prelude::*;
use crate::table::{
    extend_with_group, files, lemma_keys_are_distinct, lemma_take_more, Change, KeySet, Table,
};
use crate::tactical::{TacticalCache, TacticalChanges, TransferOrder, TransitPacket};

verus! {

/// Whether an order is drawn differently by its flows.
pub open spec fn flow_differs(previous: Option<TransferOrder>, next: Option<TransferOrder>) -> bool {
    match (previous, next) {
        (Some(p), Some(n)) => p.status != n.status || p.kind != n.kind,
        (None, None) => false,
        _ => true,
    }
}

/// Whether an order is offered differently for a new task.
pub open spec fn retask_differs(
    previous: Option<TransferOrder>,
    next: Option<TransferOrder>,
) -> bool {
    match (previous, next) {
        (Some(p), Some(n)) => p.status != n.status || p.player_id != n.player_id || p.kind != n.kind
            || p.client_command_id != n.client_command_id,
        (None, None) => false,
        _ => true,
    }
}

pub fn flow_order_projection_changed(
    previous: Option<TransferOrder>,
    next: Option<TransferOrder>,
) -> (changed: bool)
    ensures
        changed == flow_differs(previous, next),
{
    match (previous, next) {
        (Some(p), Some(n)) => p.status != n.status || p.kind != n.kind,
        (None, None) => false,
        _ => true,
    }
}

pub fn retask_order_projection_changed(
    previous: Option<TransferOrder>,
    next: Option<TransferOrder>,
) -> (changed: bool)
    ensures
        changed == retask_differs(previous, next),
{
    match (previous, next) {
        (Some(p), Some(n)) => p.status != n.status || p.player_id != n.player_id || p.kind != n.kind
            || p.client_command_id != n.client_command_id,
        (None, None) => false,
        _ => true,
    }
}

/// The row under a number, if there is one.
pub open spec fn row_at<V>(rows: Map<u128, V>, key: u128) -> Option<V> {
    if rows.contains_key(key) {
        Some(rows[key])
    } else {
        None
    }
}

/// Whether a packet follows one of some routes.
pub open spec fn follows(packets: Map<u128, TransitPacket>, routes: Set<u128>, key: u128) -> bool {
    &&& packets.contains_key(key)
    &&& packets[key].route_id != 0
    &&& routes.contains(packets[key].route_id as u128)
}

/// Whether a packet belongs to one of some orders.
pub open spec fn serves(packets: Map<u128, TransitPacket>, orders: Set<u128>, key: u128) -> bool {
    packets.contains_key(key) && orders.contains(packets[key].order_id as u128)
}

/// The orders whose flows are drawn differently after changes.
pub open spec fn redrawn(
    orders: Map<u128, TransferOrder>,
    changes: Map<u128, Change<TransferOrder>>,
) -> Set<u128> {
    Set::new(|k: u128| changes.contains_key(k) && flow_differs(row_at(orders, k), changes[k]))
}

/// The orders that are offered differently after changes.
pub open spec fn reoffered(
    orders: Map<u128, TransferOrder>,
    changes: Map<u128, Change<TransferOrder>>,
) -> Set<u128> {
    Set::new(|k: u128| changes.contains_key(k) && retask_differs(row_at(orders, k), changes[k]))
}

/// The rows that have to be projected again.
#[derive(Debug)]
pub struct ProjectionImpact {
    pub flow_packet_ids: KeySet,
    pub retask_packet_ids: KeySet,
    pub retask_source_keys: KeySet,
    pub retask_destination_keys: KeySet,
    pub route_ids: KeySet,
    pub structural_order_ids: KeySet,
    pub fronts_changed: bool,
}

fn set_of(keys: Vec<u128>) -> (set: KeySet)
    ensures
        set@ == keys@.to_set(),
{
    let mut set = KeySet::new();
    set.insert_all(&keys);
    assert(set@ =~= keys@.to_set());
    set
}

/// Adds what is filed under each of some groups.
fn extend_with_groups(set: &mut KeySet, index: &Table<KeySet>, groups: &KeySet)
    ensures
        forall|k: u128| #[trigger]
            final(set)@.contains(k) <==> old(set)@.contains(k) || filed_in(index@, groups@, k),
{
    let listed = groups.to_vec();
    let ghost before = set@;
    let mut i: usize = 0;
    while i < listed.len()
        invariant
            i <= listed@.len(),
            listed@.to_set() == groups@,
            forall|k: u128| #[trigger]
                set@.contains(k) <==> before.contains(k) || filed_in(
                    index@,
                    listed@.take(i as int).to_set(),
                    k,
                ),
        decreases listed.len() - i,
    {
        let ghost was = set@;
        extend_with_group(set, index, listed[i]);
        proof {
            let t = listed@.take(i as int);
            let g = listed@[i as int];
            assert(listed@.take(i + 1) =~= t.push(g));
            crate::axials::lemma_to_set_push(t, g);
            assert forall|k: u128| #[trigger] set@.contains(k) <==> before.contains(k) || filed_in(
                index@,
                listed@.take(i + 1).to_set(),
                k,
            ) by {
                assert(was.contains(k) <==> before.contains(k) || filed_in(index@, t.to_set(), k));
                if filed_in(index@, t.to_set(), k) {
                    let h = choose|h: u128| t.to_set().contains(h) && #[trigger] files(index@, h, k);
                    assert(t.to_set().insert(g).contains(h) && files(index@, h, k));
                }
                if files(index@, g, k) {
                    assert(t.to_set().insert(g).contains(g));
                }
                if filed_in(index@, t.to_set().insert(g), k) {
                    let h = choose|h: u128|
                        t.to_set().insert(g).contains(h) && #[trigger] files(index@, h, k);
                    if h != g {
                        assert(t.to_set().contains(h));
                    }
                }
            }
        }
        i += 1;
    }
    assert(listed@.take(i as int) =~= listed@);
}

/// Whether a number is filed under one of some groups.
spec fn filed_in(index: Map<u128, KeySet>, groups: Set<u128>, key: u128) -> bool {
    exists|g: u128| groups.contains(g) && #[trigger] files(index, g, key)
}

proof fn lemma_filed_in(index: Map<u128, KeySet>, groups: Set<u128>, g: u128, key: u128)
    requires
        forall|h: u128| #[trigger] files(index, h, key) ==> h == g,
        files(index, g, key),
    ensures
        filed_in(index, groups, key) == groups.contains(g),
{
    if groups.contains(g) {
        assert(files(index, g, key));
    }
}

impl TacticalCache {
    /// What the index by order says of a set of orders.
    proof fn lemma_served(&self, orders: Set<u128>, key: u128)
        requires
            self.is_sound(),
        ensures
            filed_in(self.packet_ids_by_order@, orders, key) == serves(self.packets@, orders, key),
    {
        let index = self.packet_ids_by_order@;
        if self.packets@.contains_key(key) {
            let g = self.packets@[key].order_id as u128;
            assert(files(index, g, key));
            lemma_filed_in(index, orders, g, key);
        }
    }

    /// What the index by route says of a set of routes.
    proof fn lemma_followed(&self, routes: Set<u128>, key: u128)
        requires
            self.is_sound(),
        ensures
            filed_in(self.packet_ids_by_route@, routes, key) == follows(self.packets@, routes, key),
    {
        let index = self.packet_ids_by_route@;
        if self.packets@.contains_key(key) && self.packets@[key].route_id != 0 {
            let g = self.packets@[key].route_id as u128;
            assert(files(index, g, key));
            lemma_filed_in(index, routes, g, key);
        }
    }

    proof fn lemma_sourced(&self, orders: Set<u128>, key: u128)
        requires
            self.is_sound(),
        ensures
            filed_in(self.source_keys_by_order@, orders, key) == (self.sources@.contains_key(key)
                && orders.contains(self.sources@[key].order_id as u128)),
    {
        let index = self.source_keys_by_order@;
        if self.sources@.contains_key(key) {
            let g = self.sources@[key].order_id as u128;
            assert(files(index, g, key));
            lemma_filed_in(index, orders, g, key);
        }
    }

    proof fn lemma_destined(&self, orders: Set<u128>, key: u128)
        requires
            self.is_sound(),
        ensures
            filed_in(self.destination_keys_by_order@, orders, key) == (
            self.destinations@.contains_key(key) && orders.contains(
                self.destinations@[key].order_id as u128,
            )),
    {
        let index = self.destination_keys_by_order@;
        if self.destinations@.contains_key(key) {
            let g = self.destinations@[key].order_id as u128;
            assert(files(index, g, key));
            lemma_filed_in(index, orders, g, key);
        }
    }
}

/// Whether one set holds another and what belongs to some orders, and no more.
pub open spec fn grows_by_packets(
    after: Set<u128>,
    before: Set<u128>,
    cache: TacticalCache,
    orders: Set<u128>,
) -> bool {
    forall|k: u128| #[trigger]
        after.contains(k) <==> before.contains(k) || serves(cache.packets@, orders, k)
}

pub open spec fn grows_by_sources(
    after: Set<u128>,
    before: Set<u128>,
    cache: TacticalCache,
    orders: Set<u128>,
) -> bool {
    forall|k: u128| #[trigger]
        after.contains(k) <==> before.contains(k) || (cache.sources@.contains_key(k)
            && orders.contains(cache.sources@[k].order_id as u128))
}

pub open spec fn grows_by_destinations(
    after: Set<u128>,
    before: Set<u128>,
    cache: TacticalCache,
    orders: Set<u128>,
) -> bool {
    forall|k: u128| #[trigger]
        after.contains(k) <==> before.contains(k) || (cache.destinations@.contains_key(k)
            && orders.contains(cache.destinations@[k].order_id as u128))
}

impl ProjectionImpact {
    pub fn new() -> (impact: ProjectionImpact)
        ensures
            impact.flow_packet_ids@ == Set::<u128>::empty(),
            impact.retask_packet_ids@ == Set::<u128>::empty(),
            impact.retask_source_keys@ == Set::<u128>::empty(),
            impact.retask_destination_keys@ == Set::<u128>::empty(),
            impact.route_ids@ == Set::<u128>::empty(),
            impact.structural_order_ids@ == Set::<u128>::empty(),
            !impact.fronts_changed,
    {
        ProjectionImpact {
            flow_packet_ids: KeySet::new(),
            retask_packet_ids: KeySet::new(),
            retask_source_keys: KeySet::new(),
            retask_destination_keys: KeySet::new(),
            route_ids: KeySet::new(),
            structural_order_ids: KeySet::new(),
            fronts_changed: false,
        }
    }

    /// What changes touch of the rows that are there before them.
    pub fn before(cache: &TacticalCache, changes: &TacticalChanges) -> (impact: ProjectionImpact)
        requires
            cache.is_sound(),
        ensures
            impact.route_ids@ == changes.routes@.dom(),
            impact.structural_order_ids@ == reoffered(cache.orders@, changes.orders@),
            impact.fronts_changed == !(changes.fronts@.dom() =~= Set::<u128>::empty()),
            forall|k: u128| #[trigger]
                impact.flow_packet_ids@.contains(k) <==> changes.packets@.contains_key(k)
                    || follows(cache.packets@, changes.routes@.dom(), k) || serves(
                    cache.packets@,
                    redrawn(cache.orders@, changes.orders@),
                    k,
                ),
            forall|k: u128| #[trigger]
                impact.retask_packet_ids@.contains(k) <==> changes.packets@.contains_key(k)
                    || follows(cache.packets@, changes.routes@.dom(), k) || serves(
                    cache.packets@,
                    reoffered(cache.orders@, changes.orders@),
                    k,
                ),
            grows_by_sources(
                impact.retask_source_keys@,
                changes.sources@.dom(),
                *cache,
                reoffered(cache.orders@, changes.orders@),
            ),
            grows_by_destinations(
                impact.retask_destination_keys@,
                changes.destinations@.dom(),
                *cache,
                reoffered(cache.orders@, changes.orders@),
            ),
    {
        let (redrawn_ids, structural_order_ids) = changed_orders(cache, changes);
        let route_ids = set_of(changes.routes.keys());
        let mut flow_packet_ids = set_of(changes.packets.keys());
        let mut retask_packet_ids = set_of(changes.packets.keys());
        let mut retask_source_keys = set_of(changes.sources.keys());
        let mut retask_destination_keys = set_of(changes.destinations.keys());
        extend_with_groups(&mut flow_packet_ids, &cache.packet_ids_by_route, &route_ids);
        extend_with_groups(&mut retask_packet_ids, &cache.packet_ids_by_route, &route_ids);
        extend_with_groups(&mut flow_packet_ids, &cache.packet_ids_by_order, &redrawn_ids);
        let mut impact = ProjectionImpact {
            flow_packet_ids,
            retask_packet_ids,
            retask_source_keys,
            retask_destination_keys,
            route_ids,
            structural_order_ids,
            fronts_changed: !changes.fronts.is_empty(),
        };
        impact.extend_order_rows(cache);
        proof {
            assert forall|k: u128| #[trigger]
                impact.flow_packet_ids@.contains(k) <==> changes.packets@.contains_key(k)
                    || follows(cache.packets@, changes.routes@.dom(), k) || serves(
                    cache.packets@,
                    redrawn(cache.orders@, changes.orders@),
                    k,
                ) by {
                cache.lemma_followed(changes.routes@.dom(), k);
                cache.lemma_served(redrawn(cache.orders@, changes.orders@), k);
            }
            assert forall|k: u128| #[trigger]
                impact.retask_packet_ids@.contains(k) <==> changes.packets@.contains_key(k)
                    || follows(cache.packets@, changes.routes@.dom(), k) || serves(
                    cache.packets@,
                    reoffered(cache.orders@, changes.orders@),
                    k,
                ) by {
                cache.lemma_followed(changes.routes@.dom(), k);
            }
        }
        impact
    }

    /// Adds what is touched of the rows that are there after the changes.
    pub fn after(&mut self, cache: &TacticalCache)
        requires
            cache.is_sound(),
        ensures
            final(self).route_ids == old(self).route_ids,
            final(self).structural_order_ids == old(self).structural_order_ids,
            final(self).fronts_changed == old(self).fronts_changed,
            forall|k: u128| #[trigger]
                final(self).flow_packet_ids@.contains(k) <==> old(self).flow_packet_ids@.contains(k)
                    || follows(cache.packets@, old(self).route_ids@, k) || serves(
                    cache.packets@,
                    old(self).structural_order_ids@,
                    k,
                ),
            forall|k: u128| #[trigger]
                final(self).retask_packet_ids@.contains(k) <==> old(
                    self,
                ).retask_packet_ids@.contains(k) || follows(
                    cache.packets@,
                    old(self).route_ids@,
                    k,
                ) || serves(cache.packets@, old(self).structural_order_ids@, k),
            grows_by_sources(
                final(self).retask_source_keys@,
                old(self).retask_source_keys@,
                *cache,
                old(self).structural_order_ids@,
            ),
            grows_by_destinations(
                final(self).retask_destination_keys@,
                old(self).retask_destination_keys@,
                *cache,
                old(self).structural_order_ids@,
            ),
    {
        let ghost before = *self;
        extend_with_groups(&mut self.flow_packet_ids, &cache.packet_ids_by_route, &self.route_ids);
        extend_with_groups(&mut self.retask_packet_ids, &cache.packet_ids_by_route, &self.route_ids);
        extend_with_groups(
            &mut self.flow_packet_ids,
            &cache.packet_ids_by_order,
            &self.structural_order_ids,
        );
        self.extend_order_rows(cache);
        proof {
            assert forall|k: u128| #[trigger]
                self.flow_packet_ids@.contains(k) <==> before.flow_packet_ids@.contains(k)
                    || follows(cache.packets@, before.route_ids@, k) || serves(
                    cache.packets@,
                    before.structural_order_ids@,
                    k,
                ) by {
                cache.lemma_followed(before.route_ids@, k);
                cache.lemma_served(before.structural_order_ids@, k);
            }
            assert forall|k: u128| #[trigger]
                self.retask_packet_ids@.contains(k) <==> before.retask_packet_ids@.contains(k)
                    || follows(cache.packets@, before.route_ids@, k) || serves(
                    cache.packets@,
                    before.structural_order_ids@,
                    k,
                ) by {
                cache.lemma_followed(before.route_ids@, k);
            }
        }
    }

    /// Adds the rows of the orders that are offered differently.
    fn extend_order_rows(&mut self, cache: &TacticalCache)
        requires
            cache.is_sound(),
        ensures
            final(self).flow_packet_ids == old(self).flow_packet_ids,
            final(self).route_ids == old(self).route_ids,
            final(self).structural_order_ids == old(self).structural_order_ids,
            final(self).fronts_changed == old(self).fronts_changed,
            grows_by_packets(
                final(self).retask_packet_ids@,
                old(self).retask_packet_ids@,
                *cache,
                old(self).structural_order_ids@,
            ),
            grows_by_sources(
                final(self).retask_source_keys@,
                old(self).retask_source_keys@,
                *cache,
                old(self).structural_order_ids@,
            ),
            grows_by_destinations(
                final(self).retask_destination_keys@,
                old(self).retask_destination_keys@,
                *cache,
                old(self).structural_order_ids@,
            ),
    {
        let ghost before = *self;
        extend_with_groups(
            &mut self.retask_packet_ids,
            &cache.packet_ids_by_order,
            &self.structural_order_ids,
        );
        extend_with_groups(
            &mut self.retask_source_keys,
            &cache.source_keys_by_order,
            &self.structural_order_ids,
        );
        extend_with_groups(
            &mut self.retask_destination_keys,
            &cache.destination_keys_by_order,
            &self.structural_order_ids,
        );
        proof {
            let orders = before.structural_order_ids@;
            assert forall|k: u128| #[trigger]
                self.retask_packet_ids@.contains(k) <==> before.retask_packet_ids@.contains(k)
                    || serves(cache.packets@, orders, k) by {
                cache.lemma_served(orders, k);
            }
            assert forall|k: u128| #[trigger]
                self.retask_source_keys@.contains(k) <==> before.retask_source_keys@.contains(k)
                    || (cache.sources@.contains_key(k) && orders.contains(
                    cache.sources@[k].order_id as u128,
                )) by {
                cache.lemma_sourced(orders, k);
            }
            assert forall|k: u128| #[trigger]
                self.retask_destination_keys@.contains(k)
                    <==> before.retask_destination_keys@.contains(k) || (
                cache.destinations@.contains_key(k) && orders.contains(
                    cache.destinations@[k].order_id as u128,
                )) by {
                cache.lemma_destined(orders, k);
            }
        }
    }

    /// Whether anything that is offered for a new task is touched.
    pub fn retask_changed(&self) -> (changed: bool)
        ensures
            changed == !(!self.fronts_changed && self.structural_order_ids@ =~= Set::<u128>::empty()
                && self.retask_packet_ids@ =~= Set::<u128>::empty() && self.retask_source_keys@
                =~= Set::<u128>::empty() && self.retask_destination_keys@
                =~= Set::<u128>::empty()),
    {
        self.fronts_changed || !self.structural_order_ids.is_empty()
            || !self.retask_packet_ids.is_empty() || !self.retask_source_keys.is_empty()
            || !self.retask_destination_keys.is_empty()
    }
}

/// The orders that are drawn, and those that are offered, differently.
fn changed_orders(cache: &TacticalCache, changes: &TacticalChanges) -> (sets: (KeySet, KeySet))
    ensures
        sets.0@ == redrawn(cache.orders@, changes.orders@),
        sets.1@ == reoffered(cache.orders@, changes.orders@),
{
    let keys = changes.orders.keys();
    let mut flow = KeySet::new();
    let mut structural = KeySet::new();
    let mut i: usize = 0;
    assert(keys@.take(0) =~= Seq::<u128>::empty());
    proof {
        lemma_keys_are_distinct(keys@);
    }
    while i < keys.len()
        invariant
            i <= keys@.len(),
            keys@.no_duplicates(),
            keys@.to_set() == changes.orders@.dom(),
            forall|k: u128| #[trigger]
                flow@.contains(k) <==> keys@.take(i as int).contains(k) && flow_differs(
                    row_at(cache.orders@, k),
                    changes.orders@[k],
                ),
            forall|k: u128| #[trigger]
                structural@.contains(k) <==> keys@.take(i as int).contains(k) && retask_differs(
                    row_at(cache.orders@, k),
                    changes.orders@[k],
                ),
        decreases keys.len() - i,
    {
        let key = keys[i];
        proof {
            lemma_take_more(keys@, i as int);
            assert(keys@.to_set().contains(key));
        }
        let previous: Option<TransferOrder> = match cache.orders.get(key) {
            Some(order) => Some(*order),
            None => None,
        };
        let next: Option<TransferOrder> = match changes.orders.get(key) {
            Some(change) => *change,
            None => None,
        };
        if flow_order_projection_changed(previous, next) {
            flow.insert(key);
        }
        if retask_order_projection_changed(previous, next) {
            structural.insert(key);
        }
        i += 1;
    }
    proof {
        assert(keys@.take(i as int) =~= keys@);
        assert forall|k: u128| keys@.contains(k) <==> changes.orders@.contains_key(k) by {
            assert(keys@.to_set().contains(k) <==> keys@.contains(k));
        }
        assert(flow@ =~= redrawn(cache.orders@, changes.orders@));
        assert(structural@ =~= reoffered(cache.orders@, changes.orders@));
    }
    (flow, structural)
}

} // verus!
