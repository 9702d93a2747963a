//! Which chunks of the map are built, and which have to be drawn again.
use vstd::prelude::*;
use std::collections::VecDeque;
use crate::axials::{ordered, AxialMap, AxialSet};
use crate::coord::{Axial, ChunkCoord};
use crate::order::{is_order, stable_order};
use crate::projection::MapViewMode;

verus! {

pub const INITIAL_CHUNK_SPAWN_BUDGET: usize = 32;

pub const CHUNK_SPAWN_BUDGET_PER_FRAME: usize = 24;

pub const VISIBLE_COLOR_UPDATES_PER_FRAME: usize = 48;

pub const HIDDEN_COLOR_UPDATES_PER_FRAME: usize = 12;

pub const UPDATE_CLASSIFICATION_BUDGET_PER_FRAME: usize = 192;

/// A chunk as a key.
pub open spec fn spot(chunk: ChunkCoord) -> Axial {
    Axial { q: chunk.q, r: chunk.r }
}

fn key(chunk: ChunkCoord) -> (c: Axial)
    ensures
        c == spot(chunk),
{
    Axial { q: chunk.q, r: chunk.r }
}

/// A key as a chunk.
pub open spec fn chunk_at(c: Axial) -> ChunkCoord {
    ChunkCoord { q: c.q, r: c.r }
}

/// The spots of some chunks.
pub open spec fn spots(chunks: Seq<ChunkCoord>) -> Set<Axial> {
    chunks.map_values(|c: ChunkCoord| spot(c)).to_set()
}

proof fn lemma_spots_push(chunks: Seq<ChunkCoord>, c: ChunkCoord)
    ensures
        spots(chunks.push(c)) == spots(chunks).insert(spot(c)),
{
    let f = |d: ChunkCoord| spot(d);
    assert(chunks.push(c).map_values(f) =~= chunks.map_values(f).push(spot(c)));
    crate::axials::lemma_to_set_push(chunks.map_values(f), spot(c));
}

/// How far a chunk is from the origin: twice the square of the distance.
pub open spec fn farness(chunk: ChunkCoord) -> int {
    chunk.q * chunk.q + chunk.r * chunk.r + (chunk.q + chunk.r) * (chunk.q + chunk.r)
}

/// The keys that chunks are sorted by.
pub open spec fn farness_keys(chunks: Seq<ChunkCoord>) -> Seq<(u128, u128)> {
    chunks.map_values(|c: ChunkCoord| (farness(c) as u128, 0u128))
}

/// Whether a list holds chunks with the near ones first; equally far ones keep
/// their order.
pub open spec fn is_near_first(sorted: Seq<ChunkCoord>, chunks: Seq<ChunkCoord>) -> bool {
    exists|order: Seq<usize>| #[trigger]
        is_order(farness_keys(chunks), order) && sorted == order.map_values(
            |i: usize| chunks[i as int],
        )
}

fn square(x: i64) -> (y: u128)
    requires
        -0x1_0000_0000 <= x <= 0x1_0000_0000,
    ensures
        y == x * x,
{
    let m: u64 = crate::coord::magnitude(x);
    proof {
        let n = m as int;
        let z = x as int;
        assert(n * n == z * z) by (nonlinear_arith)
            requires
                n == z || n == -z,
        ;
        assert(n * n <= 0x1_0000_0000 * 0x1_0000_0000) by (nonlinear_arith)
            requires
                0 <= n <= 0x1_0000_0000,
        ;
    }
    m as u128 * m as u128
}

/// Sorts chunks, the near ones first.
pub fn sort_chunks_near_origin(chunks: &Vec<ChunkCoord>) -> (sorted: Vec<ChunkCoord>)
    ensures
        is_near_first(sorted@, chunks@),
        sorted@.len() == chunks@.len(),
        forall|c: ChunkCoord| #[trigger] sorted@.contains(c) <==> chunks@.contains(c),
{
    let mut keys: Vec<(u128, u128)> = Vec::new();
    let mut i: usize = 0;
    while i < chunks.len()
        invariant
            i <= chunks@.len(),
            keys@ =~= farness_keys(chunks@.take(i as int)),
        decreases chunks.len() - i,
    {
        let q: i64 = chunks[i].q as i64;
        let r: i64 = chunks[i].r as i64;
        let a: u128 = square(q);
        let b: u128 = square(r);
        let c: u128 = square(q + r);
        proof {
            let x = q as int;
            let y = r as int;
            assert(x * x <= 0x1_0000_0000 * 0x1_0000_0000) by (nonlinear_arith)
                requires
                    -0x1_0000_0000 <= x <= 0x1_0000_0000,
            ;
            assert(y * y <= 0x1_0000_0000 * 0x1_0000_0000) by (nonlinear_arith)
                requires
                    -0x1_0000_0000 <= y <= 0x1_0000_0000,
            ;
            assert((x + y) * (x + y) <= 0x1_0000_0000 * 0x1_0000_0000) by (nonlinear_arith)
                requires
                    -0x1_0000_0000 <= x + y <= 0x1_0000_0000,
            ;
            assert(a + b + c == farness(chunks@[i as int]));
        }
        keys.push((a + b + c, 0));
        i += 1;
    }
    assert(chunks@.take(i as int) =~= chunks@);
    let order = stable_order(keys.as_slice());
    let mut sorted: Vec<ChunkCoord> = Vec::new();
    let mut j: usize = 0;
    while j < order.len()
        invariant
            j <= order@.len(),
            is_order(farness_keys(chunks@), order@),
            chunks@.len() == order@.len(),
            sorted@ =~= order@.take(j as int).map_values(|i: usize| chunks@[i as int]),
        decreases order.len() - j,
    {
        assert(order@[j as int] < chunks@.len());
        sorted.push(chunks[order[j]]);
        j += 1;
    }
    proof {
        assert(order@.take(j as int) =~= order@);
        assert forall|c: ChunkCoord| #[trigger] sorted@.contains(c) <==> chunks@.contains(c) by {
            if sorted@.contains(c) {
                let k = choose|k: int| 0 <= k < sorted@.len() && sorted@[k] == c;
                assert(order@[k] < chunks@.len());
                assert(chunks@[order@[k] as int] == c);
            }
            if chunks@.contains(c) {
                let k = choose|k: int| 0 <= k < chunks@.len() && chunks@[k] == c;
                assert(order@.contains(k as usize));
                let m = choose|m: int| 0 <= m < order@.len() && order@[m] == k as usize;
                assert(sorted@[m] == c);
            }
        }
    }
    sorted
}

/// What became of a chunk that was to be drawn again.
#[derive(Clone, Copy, Debug, Eq, PartialEq, Structural)]
pub enum RefreshResult {
    Updated,
    Reclassify,
    Missing,
}

/// The chunks that are built, under the numbers of their entities, and the work
/// that waits.
#[derive(Debug)]
pub struct TerrainChunkRegistry {
    pub topology_revision: u64,
    pub rendered_mode: MapViewMode,
    pub ordered_coordinates: Vec<ChunkCoord>,
    pub entities: AxialMap<u64>,
    pub pending_spawns: VecDeque<ChunkCoord>,
    pub pending_spawn_set: AxialSet,
    pub visible_updates: VecDeque<ChunkCoord>,
    pub hidden_updates: VecDeque<ChunkCoord>,
    pub scheduled_updates: AxialSet,
    pub mode_sweep_cursor: Option<usize>,
}

/// The chunks of a list without those that are built.
pub open spec fn unbuilt(list: Seq<ChunkCoord>, entities: Map<Axial, u64>) -> Seq<ChunkCoord>
    decreases list.len(),
{
    if list.len() == 0 {
        seq![]
    } else if entities.contains_key(spot(list.last())) {
        unbuilt(list.drop_last(), entities)
    } else {
        unbuilt(list.drop_last(), entities).push(list.last())
    }
}

/// The entities of the spots of a list, in its order.
pub open spec fn entities_at(entities: Map<Axial, u64>, list: Seq<Axial>) -> Seq<u64> {
    list.map_values(|c: Axial| entities[c])
}

/// The spots of a list that are not wanted.
pub open spec fn unwanted(list: Seq<Axial>, wanted: Set<Axial>) -> Seq<Axial>
    decreases list.len(),
{
    if list.len() == 0 {
        seq![]
    } else if wanted.contains(list.last()) {
        unwanted(list.drop_last(), wanted)
    } else {
        unwanted(list.drop_last(), wanted).push(list.last())
    }
}

/// The least of two numbers.
pub open spec fn lesser(a: int, b: int) -> int {
    if a <= b {
        a
    } else {
        b
    }
}

/// A registry as its lists and sets.
#[verifier::ext_equal]
pub struct Workload {
    pub revision: u64,
    pub mode: MapViewMode,
    pub order: Seq<ChunkCoord>,
    pub entities: Map<Axial, u64>,
    pub waiting: Seq<ChunkCoord>,
    pub awaited: Set<Axial>,
    pub visible: Seq<ChunkCoord>,
    pub hidden: Seq<ChunkCoord>,
    pub scheduled: Set<Axial>,
    pub sweep: Option<usize>,
}

impl View for TerrainChunkRegistry {
    type V = Workload;

    open spec fn view(&self) -> Workload {
        Workload {
            revision: self.topology_revision,
            mode: self.rendered_mode,
            order: self.ordered_coordinates@,
            entities: self.entities@,
            waiting: self.pending_spawns@,
            awaited: self.pending_spawn_set@,
            visible: self.visible_updates@,
            hidden: self.hidden_updates@,
            scheduled: self.scheduled_updates@,
            sweep: self.mode_sweep_cursor,
        }
    }
}

impl Workload {
    /// After a chunk has been built.
    pub open spec fn built(self, chunk: ChunkCoord, entity: u64) -> Workload {
        Workload {
            entities: self.entities.insert(spot(chunk), entity),
            awaited: self.awaited.remove(spot(chunk)),
            ..self
        }
    }

    /// After the entity of a chunk was found to be gone: it is built again.
    pub open spec fn missing(self, chunk: ChunkCoord) -> Workload {
        Workload {
            entities: self.entities.remove(spot(chunk)),
            scheduled: self.scheduled.remove(spot(chunk)),
            awaited: self.awaited.insert(spot(chunk)),
            waiting: if self.awaited.contains(spot(chunk)) {
                self.waiting
            } else {
                self.waiting.push(chunk)
            },
            ..self
        }
    }

    /// With a chunk at the end of the queue of those that are seen, or of the
    /// others.
    pub open spec fn lined_up(self, chunk: ChunkCoord, seen: bool) -> Workload {
        if seen {
            Workload { visible: self.visible.push(chunk), ..self }
        } else {
            Workload { hidden: self.hidden.push(chunk), ..self }
        }
    }

    /// With a chunk in a queue, if it is built and in none.
    pub open spec fn queued(self, chunk: ChunkCoord, seen: bool) -> Workload {
        if self.entities.contains_key(spot(chunk)) && !self.scheduled.contains(spot(chunk)) {
            Workload {
                scheduled: self.scheduled.insert(spot(chunk)),
                ..self.lined_up(chunk, seen)
            }
        } else {
            self
        }
    }

    /// After a chunk has been drawn again.
    pub open spec fn drawn(self, chunk: ChunkCoord) -> Workload {
        Workload { scheduled: self.scheduled.remove(spot(chunk)), ..self }
    }

    /// Without the first chunk of a queue.
    pub open spec fn advanced(self, seen: bool) -> Workload {
        if seen {
            Workload { visible: self.visible.skip(1), ..self }
        } else {
            Workload { hidden: self.hidden.skip(1), ..self }
        }
    }

    /// A queue.
    pub open spec fn queue(self, seen: bool) -> Seq<ChunkCoord> {
        if seen {
            self.visible
        } else {
            self.hidden
        }
    }

    /// Where a step of a sweep begins and ends, in the list of chunks.
    pub open spec fn swept(self, budget: int) -> (int, int) {
        match self.sweep {
            None => (0, 0),
            Some(start) => (start as int, lesser(start + budget, self.order.len() as int)),
        }
    }

    /// After a step of a sweep.
    pub open spec fn after_sweep(self, budget: int) -> Workload {
        let end = self.swept(budget).1;
        Workload {
            sweep: if self.sweep is Some && end < self.order.len() {
                Some(end as usize)
            } else {
                None
            },
            ..self
        }
    }
}

impl TerrainChunkRegistry {
    /// Whether a sweep is inside the list of chunks.
    pub open spec fn is_sweeping_well(&self) -> bool {
        self.mode_sweep_cursor matches Some(start) ==> start <= self.ordered_coordinates@.len()
    }

    /// All chunks wait to be built, the near ones first.
    pub fn new(
        topology_revision: u64,
        rendered_mode: MapViewMode,
        coordinates: &Vec<ChunkCoord>,
    ) -> (registry: TerrainChunkRegistry)
        ensures
            registry.topology_revision == topology_revision,
            registry.rendered_mode == rendered_mode,
            is_near_first(registry.ordered_coordinates@, coordinates@),
            registry.pending_spawns@ == registry.ordered_coordinates@,
            registry.pending_spawn_set@ == spots(registry.ordered_coordinates@),
            registry.entities@ == Map::<Axial, u64>::empty(),
            registry.visible_updates@.len() == 0,
            registry.hidden_updates@.len() == 0,
            registry.scheduled_updates@ == Set::<Axial>::empty(),
            registry.mode_sweep_cursor is None,
    {
        let sorted = sort_chunks_near_origin(coordinates);
        let entities: AxialMap<u64> = AxialMap::new();
        let (pending_spawns, pending_spawn_set) = waiting(&sorted, &entities);
        proof {
            lemma_all_unbuilt(sorted@);
        }
        TerrainChunkRegistry {
            topology_revision,
            rendered_mode,
            ordered_coordinates: sorted,
            entities,
            pending_spawns,
            pending_spawn_set,
            visible_updates: VecDeque::new(),
            hidden_updates: VecDeque::new(),
            scheduled_updates: AxialSet::new(),
            mode_sweep_cursor: None,
        }
    }

    /// Follows a new list of chunks: what is no longer on it goes, what is new
    /// waits to be built, and everything that stays is looked at again. The
    /// entities that go, by their chunks.
    pub fn reconcile(
        &mut self,
        topology_revision: u64,
        coordinates: &Vec<ChunkCoord>,
    ) -> (removed: Vec<u64>)
        ensures
            removed@ == entities_at(
                old(self).entities@,
                unwanted(ordered(old(self).entities@.dom()), spots(coordinates@)),
            ),
            final(self).entities@ == old(self).entities@.restrict(spots(coordinates@)),
            is_near_first(final(self).ordered_coordinates@, coordinates@),
            final(self).pending_spawns@ == unbuilt(
                final(self).ordered_coordinates@,
                final(self).entities@,
            ),
            final(self).pending_spawn_set@ == spots(final(self).pending_spawns@),
            final(self).visible_updates@.len() == 0,
            final(self).hidden_updates@.len() == 0,
            final(self).scheduled_updates@ == Set::<Axial>::empty(),
            final(self).mode_sweep_cursor == Some(0usize),
            final(self).topology_revision == topology_revision,
            final(self).rendered_mode == old(self).rendered_mode,
    {
        let sorted = sort_chunks_near_origin(coordinates);
        let wanted = spot_set(coordinates);
        let ghost before = self.entities@;
        let listed = self.entities.keys();
        let mut removed: Vec<u64> = Vec::new();
        let mut i: usize = 0;
        proof {
            assert(listed@.take(0) =~= Seq::<Axial>::empty());
            assert(removed@ =~= entities_at(before, seq![]));
        }
        while i < listed.len()
            invariant
                i <= listed@.len(),
                listed@.to_set() == before.dom(),
                crate::axials::ascending(listed@),
                wanted@ == spots(coordinates@),
                removed@ == entities_at(before, unwanted(listed@.take(i as int), wanted@)),
                forall|c: Axial| #[trigger]
                    self.entities@.contains_key(c) <==> before.contains_key(c) && (wanted@.contains(
                        c,
                    ) || !listed@.take(i as int).contains(c)),
                forall|c: Axial| #[trigger]
                    self.entities@.contains_key(c) ==> self.entities@[c] == before[c],
                self.rendered_mode == old(self).rendered_mode,
            decreases listed.len() - i,
        {
            let c = listed[i];
            let ghost done = listed@.take(i as int);
            let ghost was = self.entities@;
            proof {
                crate::axials::lemma_ascending_no_duplicates(listed@);
                assert(listed@.take(i + 1) =~= done.push(c));
                assert(done.push(c).drop_last() =~= done);
                assert(listed@.to_set().contains(c));
                assert(!done.contains(c)) by {
                    if done.contains(c) {
                        let j = choose|j: int| 0 <= j < done.len() && done[j] == c;
                        assert(listed@[j] == listed@[i as int]);
                    }
                }
                assert(was.contains_key(c));
            }
            if !wanted.contains(c) {
                match self.entities.remove(c) {
                    Some(entity) => {
                        removed.push(entity);
                    },
                    None => {
                        vstd::pervasive::unreached()
                    },
                }
                assert(removed@ =~= entities_at(before, unwanted(done, wanted@).push(c)));
            }
            proof {
                assert forall|d: Axial| #[trigger]
                    self.entities@.contains_key(d) <==> before.contains_key(d) && (wanted@.contains(
                        d,
                    ) || !done.push(c).contains(d)) by {
                    assert(was.contains_key(d) <==> before.contains_key(d) && (wanted@.contains(d)
                        || !done.contains(d)));
                    if done.contains(d) {
                        let j = choose|j: int| 0 <= j < done.len() && done[j] == d;
                        assert(done.push(c)[j] == d);
                    }
                    assert(done.push(c)[done.len() as int] == c);
                    if done.push(c).contains(d) && d != c {
                        let j = choose|j: int| 0 <= j < done.push(c).len() && done.push(c)[j] == d;
                        assert(done[j] == d);
                    }
                }
            }
            i += 1;
        }
        proof {
            assert(listed@.take(i as int) =~= listed@);
            assert forall|c: Axial| before.contains_key(c) implies listed@.contains(c) by {
                assert(listed@.to_set().contains(c));
            }
            assert(self.entities@ =~= before.restrict(wanted@));
        }
        let (pending_spawns, pending_spawn_set) = waiting(&sorted, &self.entities);
        self.pending_spawns = pending_spawns;
        self.pending_spawn_set = pending_spawn_set;
        self.ordered_coordinates = sorted;
        self.visible_updates = VecDeque::new();
        self.hidden_updates = VecDeque::new();
        self.scheduled_updates = AxialSet::new();
        self.mode_sweep_cursor = Some(0);
        self.topology_revision = topology_revision;
        removed
    }

    /// Takes chunks that wait to be built, the first ones first, up to a budget.
    pub fn take_pending_spawns(&mut self, budget: usize) -> (chunks: Vec<ChunkCoord>)
        ensures
            ({
                let count = lesser(budget as int, old(self)@.waiting.len() as int);
                &&& chunks@ == old(self)@.waiting.take(count)
                &&& final(self)@ == (Workload {
                    waiting: old(self)@.waiting.skip(count),
                    awaited: old(self)@.awaited.difference(spots(chunks@)),
                    ..old(self)@
                })
            }),
    {
        let ghost queue = self.pending_spawns@;
        let ghost before = self.pending_spawn_set@;
        let mut chunks: Vec<ChunkCoord> = Vec::new();
        proof {
            assert(queue.take(0) =~= Seq::<ChunkCoord>::empty());
            assert(queue.skip(0) =~= queue);
            assert(spots(chunks@) =~= Set::<Axial>::empty());
            assert(before =~= before.difference(spots(chunks@)));
        }
        while chunks.len() < budget && self.pending_spawns.len() > 0
            invariant
                chunks@.len() <= budget,
                chunks@.len() <= queue.len(),
                chunks@ == queue.take(chunks@.len() as int),
                self.pending_spawns@ == queue.skip(chunks@.len() as int),
                self.pending_spawn_set@ == before.difference(spots(chunks@)),
                self.topology_revision == old(self).topology_revision,
                self.rendered_mode == old(self).rendered_mode,
                self.ordered_coordinates == old(self).ordered_coordinates,
                self.entities == old(self).entities,
                self.visible_updates == old(self).visible_updates,
                self.hidden_updates == old(self).hidden_updates,
                self.scheduled_updates == old(self).scheduled_updates,
                self.mode_sweep_cursor == old(self).mode_sweep_cursor,
            decreases budget - chunks.len(),
        {
            let ghost taken = chunks@;
            match self.pending_spawns.pop_front() {
                Some(chunk) => {
                    self.pending_spawn_set.remove(key(chunk));
                    chunks.push(chunk);
                    proof {
                        assert(chunk == queue[taken.len() as int]);
                        assert(chunks@ =~= queue.take(chunks@.len() as int));
                        assert(self.pending_spawns@ =~= queue.skip(chunks@.len() as int));
                        lemma_spots_push(taken, chunk);
                        assert(self.pending_spawn_set@ =~= before.difference(spots(chunks@)));
                    }
                },
                None => {
                    vstd::pervasive::unreached()
                },
            }
        }
        chunks
    }

    /// Takes note of a chunk that has been built.
    pub fn register(&mut self, chunk: ChunkCoord, entity: u64)
        ensures
            final(self)@ == old(self)@.built(chunk, entity),
    {
        self.entities.insert(key(chunk), entity);
        self.pending_spawn_set.remove(key(chunk));
    }

    /// Takes note of a chunk whose entity is gone: it is built again.
    pub fn mark_missing(&mut self, chunk: ChunkCoord)
        ensures
            final(self)@ == old(self)@.missing(chunk),
    {
        self.entities.remove(key(chunk));
        self.scheduled_updates.remove(key(chunk));
        let fresh: bool = self.pending_spawn_set.insert(key(chunk));
        if fresh {
            self.pending_spawns.push_back(chunk);
        }
    }

    /// Starts to look at all chunks again.
    pub fn begin_mode_sweep(&mut self)
        ensures
            final(self)@ == (Workload { sweep: Some(0usize), ..old(self)@ }),
    {
        self.mode_sweep_cursor = Some(0);
    }

    /// The next chunks of a sweep, up to a budget. It ends with the list.
    pub fn take_mode_sweep(&mut self, budget: usize) -> (batch: Vec<ChunkCoord>)
        requires
            old(self).is_sweeping_well(),
        ensures
            batch@ == old(self)@.order.subrange(
                old(self)@.swept(budget as int).0,
                old(self)@.swept(budget as int).1,
            ),
            final(self)@ == old(self)@.after_sweep(budget as int),
            final(self).is_sweeping_well(),
    {
        let mut batch: Vec<ChunkCoord> = Vec::new();
        let start: usize = match self.mode_sweep_cursor {
            Some(start) => start,
            None => return batch,
        };
        let count: usize = self.ordered_coordinates.len();
        let end: usize = if count - start <= budget {
            count
        } else {
            start + budget
        };
        let mut i: usize = start;
        while i < end
            invariant
                start <= i <= end,
                end <= self.ordered_coordinates@.len(),
                batch@ =~= self.ordered_coordinates@.subrange(start as int, i as int),
            decreases end - i,
        {
            batch.push(self.ordered_coordinates[i]);
            i += 1;
        }
        self.mode_sweep_cursor = if end < count {
            Some(end)
        } else {
            None
        };
        batch
    }

    /// Puts a chunk that is built into a queue, unless it is in one.
    pub fn queue_update(&mut self, chunk: ChunkCoord, visible: bool)
        ensures
            final(self)@ == old(self)@.queued(chunk, visible),
    {
        if !self.entities.contains(key(chunk)) || self.scheduled_updates.contains(key(chunk)) {
            return;
        }
        self.scheduled_updates.insert(key(chunk));
        if visible {
            self.visible_updates.push_back(chunk);
        } else {
            self.hidden_updates.push_back(chunk);
        }
    }

    /// Takes note that a chunk has been drawn again.
    pub fn finish_update(&mut self, chunk: ChunkCoord)
        ensures
            final(self)@ == old(self)@.drawn(chunk),
    {
        self.scheduled_updates.remove(key(chunk));
    }

    /// The entity of a chunk.
    pub fn entity(&self, chunk: ChunkCoord) -> (entity: Option<u64>)
        ensures
            entity == (if self.entities@.contains_key(spot(chunk)) {
                Some(self.entities@[spot(chunk)])
            } else {
                None
            }),
    {
        match self.entities.get(key(chunk)) {
            Some(entity) => Some(*entity),
            None => None,
        }
    }
}

impl TerrainChunkRegistry {
    /// Takes chunks to look at: some of the dirty ones, the first ones first,
    /// and then those of a sweep.
    pub fn take_classification(&mut self, dirty: &mut AxialSet) -> (batch: Vec<ChunkCoord>)
        requires
            old(self).is_sweeping_well(),
        ensures
            ({
                let budget = UPDATE_CLASSIFICATION_BUDGET_PER_FRAME as int;
                let listed = ordered(old(dirty)@);
                let taken = listed.take(lesser(budget, listed.len() as int));
                let (start, end) = old(self)@.swept(budget);
                &&& batch@ == taken.map_values(|c: Axial| chunk_at(c))
                    + old(self)@.order.subrange(start, end)
                &&& final(dirty)@ == old(dirty)@.difference(taken.to_set())
                &&& final(self)@ == old(self)@.after_sweep(budget)
            }),
            final(self).is_sweeping_well(),
    {
        let listed = dirty.to_vec();
        let ghost before = dirty@;
        let mut batch: Vec<ChunkCoord> = Vec::new();
        let mut i: usize = 0;
        assert(before =~= before.difference(listed@.take(0).to_set()));
        while i < listed.len() && i < UPDATE_CLASSIFICATION_BUDGET_PER_FRAME
            invariant
                i <= listed@.len(),
                i <= UPDATE_CLASSIFICATION_BUDGET_PER_FRAME,
                batch@ =~= listed@.take(i as int).map_values(|c: Axial| chunk_at(c)),
                dirty@ == before.difference(listed@.take(i as int).to_set()),
            decreases listed.len() - i,
        {
            let c = listed[i];
            proof {
                assert(listed@.take(i + 1) =~= listed@.take(i as int).push(c));
                crate::axials::lemma_to_set_push(listed@.take(i as int), c);
            }
            dirty.remove(c);
            batch.push(ChunkCoord { q: c.q, r: c.r });
            assert(dirty@ =~= before.difference(listed@.take(i + 1).to_set()));
            i += 1;
        }
        let ghost first = batch@;
        let swept = self.take_mode_sweep(UPDATE_CLASSIFICATION_BUDGET_PER_FRAME);
        let mut j: usize = 0;
        assert(first + swept@.take(0) =~= first);
        while j < swept.len()
            invariant
                j <= swept@.len(),
                batch@ =~= first + swept@.take(j as int),
            decreases swept.len() - j,
        {
            batch.push(swept[j]);
            j += 1;
        }
        assert(swept@.take(j as int) =~= swept@);
        batch
    }

    /// Files a chunk that was looked at: by whether it is seen, or as missing
    /// where its entity is gone. A chunk that is still to be built is left.
    pub fn classify(&mut self, chunk: ChunkCoord, seen: Option<bool>)
        ensures
            final(self)@ == (if !old(self)@.entities.contains_key(spot(chunk)) {
                old(self)@
            } else {
                match seen {
                    Some(visible) => old(self)@.queued(chunk, visible),
                    None => old(self)@.missing(chunk),
                }
            }),
    {
        if self.entity(chunk).is_none() {
            return;
        }
        match seen {
            Some(visible) => {
                self.queue_update(chunk, visible);
            },
            None => {
                self.mark_missing(chunk);
            },
        }
    }

    /// The next chunk of a queue, with its entity. One without an entity is done
    /// with.
    pub fn next_update(&mut self, visible: bool) -> (next: Option<(ChunkCoord, Option<u64>)>)
        ensures
            match next {
                None => old(self)@.queue(visible).len() == 0 && final(self)@ == old(self)@,
                Some((chunk, entity)) => {
                    &&& old(self)@.queue(visible).len() > 0
                    &&& chunk == old(self)@.queue(visible)[0]
                    &&& entity == (if old(self)@.entities.contains_key(spot(chunk)) {
                        Some(old(self)@.entities[spot(chunk)])
                    } else {
                        None
                    })
                    &&& final(self)@ == (if entity is None {
                        old(self)@.advanced(visible).drawn(chunk)
                    } else {
                        old(self)@.advanced(visible)
                    })
                },
            },
    {
        let popped: Option<ChunkCoord> = if visible {
            self.visible_updates.pop_front()
        } else {
            self.hidden_updates.pop_front()
        };
        match popped {
            None => None,
            Some(chunk) => {
                proof {
                    if visible {
                        assert(self.visible_updates@ =~= old(self).visible_updates@.skip(1));
                    } else {
                        assert(self.hidden_updates@ =~= old(self).hidden_updates@.skip(1));
                    }
                }
                let entity = self.entity(chunk);
                if entity.is_none() {
                    self.finish_update(chunk);
                }
                Some((chunk, entity))
            },
        }
    }

    /// Takes note of what became of a chunk of a queue: done, moved to the other
    /// queue, or missing.
    pub fn note_refresh(&mut self, chunk: ChunkCoord, was_visible: bool, result: RefreshResult)
        ensures
            final(self)@ == (match result {
                RefreshResult::Updated => old(self)@.drawn(chunk),
                RefreshResult::Reclassify => old(self)@.lined_up(chunk, !was_visible),
                RefreshResult::Missing => old(self)@.missing(chunk),
            }),
    {
        match result {
            RefreshResult::Updated => {
                self.finish_update(chunk);
            },
            RefreshResult::Reclassify => {
                if was_visible {
                    self.hidden_updates.push_back(chunk);
                } else {
                    self.visible_updates.push_back(chunk);
                }
            },
            RefreshResult::Missing => {
                self.mark_missing(chunk);
            },
        }
    }
}

/// The chunks that wait to be built, as a queue and as a set.
fn waiting(sorted: &Vec<ChunkCoord>, entities: &AxialMap<u64>) -> (queues: (
    VecDeque<ChunkCoord>,
    AxialSet,
))
    ensures
        queues.0@ == unbuilt(sorted@, entities@),
        queues.1@ == spots(queues.0@),
{
    let mut queue: VecDeque<ChunkCoord> = VecDeque::new();
    let mut set = AxialSet::new();
    let mut i: usize = 0;
    proof {
        assert(sorted@.take(0) =~= Seq::<ChunkCoord>::empty());
        assert(queue@ =~= seq![]);
        assert(spots(queue@) =~= Set::<Axial>::empty());
    }
    while i < sorted.len()
        invariant
            i <= sorted@.len(),
            queue@ == unbuilt(sorted@.take(i as int), entities@),
            set@ == spots(queue@),
        decreases sorted.len() - i,
    {
        let chunk = sorted[i];
        assert(sorted@.take(i + 1).drop_last() =~= sorted@.take(i as int));
        if !entities.contains(key(chunk)) {
            proof {
                lemma_spots_push(queue@, chunk);
            }
            queue.push_back(chunk);
            set.insert(key(chunk));
        }
        i += 1;
    }
    assert(sorted@.take(i as int) =~= sorted@);
    (queue, set)
}

proof fn lemma_all_unbuilt(list: Seq<ChunkCoord>)
    ensures
        unbuilt(list, Map::<Axial, u64>::empty()) == list,
    decreases list.len(),
{
    if list.len() > 0 {
        lemma_all_unbuilt(list.drop_last());
        assert(list.drop_last().push(list.last()) =~= list);
    }
}

/// The spots of some chunks as a set.
fn spot_set(chunks: &Vec<ChunkCoord>) -> (set: AxialSet)
    ensures
        set@ == spots(chunks@),
{
    let mut set = AxialSet::new();
    let mut i: usize = 0;
    assert(spots(chunks@.take(0)) =~= Set::<Axial>::empty());
    while i < chunks.len()
        invariant
            i <= chunks@.len(),
            set@ == spots(chunks@.take(i as int)),
        decreases chunks.len() - i,
    {
        proof {
            assert(chunks@.take(i + 1) =~= chunks@.take(i as int).push(chunks@[i as int]));
            lemma_spots_push(chunks@.take(i as int), chunks@[i as int]);
        }
        set.insert(key(chunks[i]));
        i += 1;
    }
    assert(chunks@.take(i as int) =~= chunks@);
    set
}

/// Where a sweep stands after some steps of a budget.
pub open spec fn sweep_at(count: int, budget: int, steps: nat) -> Option<int>
    decreases steps,
{
    if steps == 0 {
        Some(0)
    } else {
        match sweep_at(count, budget, (steps - 1) as nat) {
            None => None,
            Some(start) => {
                let end = lesser(start + budget, count);
                if end < count {
                    Some(end)
                } else {
                    None
                }
            },
        }
    }
}

/// A sweep comes to every chunk, a budget at a time, and ends.
pub proof fn law_sweeps_end(count: int, budget: int, steps: nat)
    requires
        count >= 0,
        budget >= 1,
    ensures
        sweep_at(count, budget, steps) matches Some(start) ==> start == steps * budget && (steps
            == 0 || start < count),
        steps >= 1 && steps >= count ==> sweep_at(count, budget, steps) is None,
    decreases steps,
{
    if steps > 0 {
        law_sweeps_end(count, budget, (steps - 1) as nat);
        let n = steps as int;
        assert((n - 1) * budget + budget == n * budget) by (nonlinear_arith);
        assert(n * budget >= n) by (nonlinear_arith)
            requires
                budget >= 1,
                n >= 0,
        ;
    }
}

} // verus!
