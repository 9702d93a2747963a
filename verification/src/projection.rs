//! The cells of the view, made from the rows that the server reports.
use vstd::prelude::*;
use crate::axials::{lemma_to_set_push, AxialMap, AxialSet};
use crate::coord::Axial;
use crate::deltas::CellState;
use crate::impact::row_at;
use crate::map::TerrainKind;
use crate::noise::floor_quotient;
use crate::table::{KeySet, Table};
use crate::tactical::keyed;

verus! {

/// The immutable part of a cell.
#[derive(Clone, Copy, Debug, Eq, PartialEq, Structural)]
pub struct CellTerrain {
    pub cell_id: u32,
    pub q: i32,
    pub r: i32,
    pub terrain: TerrainKind,
    pub elevation: i16,
    pub capturable: bool,
    pub passable: bool,
}

/// A cell as the view shows it.
#[derive(Clone, Copy, Debug, Eq, PartialEq, Structural)]
pub struct CellView {
    pub coordinate: Axial,
    pub terrain: TerrainKind,
    pub elevation: i16,
    pub owner: Option<u32>,
    pub civilians: u64,
    pub infantry: u64,
    pub military_capacity: u64,
    pub blocked: bool,
}

/// What the colours of the map tell.
#[derive(Clone, Copy, Debug, Eq, PartialEq, Structural)]
pub enum MapViewMode {
    Overview,
    Soldiers,
    Civilians,
}

/// The player with a number; zero is nobody.
pub open spec fn owner_of(player_id: u16) -> Option<u32> {
    if player_id == 0 {
        None
    } else {
        Some(player_id as u32)
    }
}

pub fn owner(player_id: u16) -> (player: Option<u32>)
    ensures
        player == owner_of(player_id),
{
    if player_id == 0 {
        None
    } else {
        Some(player_id as u32)
    }
}

/// A cell with what is known of its state; without, it belongs to nobody and is
/// empty.
pub open spec fn cell_of(coordinate: Axial, terrain: CellTerrain, state: Option<CellState>) -> CellView {
    CellView {
        coordinate,
        terrain: terrain.terrain,
        elevation: terrain.elevation,
        owner: match state {
            Some(s) => owner_of(s.owner_player_id),
            None => None,
        },
        civilians: match state {
            Some(s) => s.civilians,
            None => 0,
        },
        infantry: match state {
            Some(s) => s.infantry,
            None => 0,
        },
        military_capacity: match state {
            Some(s) => s.military_capacity,
            None => 0,
        },
        blocked: terrain.terrain != TerrainKind::Water && !terrain.passable,
    }
}

pub fn cell_view_from_rows(
    coordinate: Axial,
    terrain: CellTerrain,
    state: Option<CellState>,
) -> (cell: CellView)
    ensures
        cell == cell_of(coordinate, terrain, state),
{
    let (player, civilians, infantry, military_capacity): (Option<u32>, u64, u64, u64) =
        match state {
        Some(s) => (owner(s.owner_player_id), s.civilians, s.infantry, s.military_capacity),
        None => (None, 0, 0, 0),
    };
    CellView {
        coordinate,
        terrain: terrain.terrain,
        elevation: terrain.elevation,
        owner: player,
        civilians,
        infantry,
        military_capacity,
        blocked: terrain.terrain != TerrainKind::Water && !terrain.passable,
    }
}

/// A cell with a new state.
pub open spec fn restated(cell: CellView, state: CellState) -> CellView {
    CellView {
        owner: owner_of(state.owner_player_id),
        civilians: state.civilians,
        infantry: state.infantry,
        military_capacity: state.military_capacity,
        ..cell
    }
}

/// A cell of which nothing is known.
pub open spec fn neutral(cell: CellView) -> CellView {
    CellView { owner: None, civilians: 0, infantry: 0, military_capacity: 0, ..cell }
}

/// The chunk of a coordinate, in units of chunks.
pub open spec fn chunk_key(c: Axial, chunk_size: u32) -> Axial {
    Axial { q: (c.q as int / chunk_size as int) as i32, r: (c.r as int / chunk_size as int) as i32 }
}

pub fn chunk_of(c: Axial, chunk_size: u32) -> (chunk: Axial)
    requires
        chunk_size > 0,
    ensures
        chunk == chunk_key(c, chunk_size),
{
    let q: i64 = floor_quotient(c.q as i64, chunk_size as i64);
    let r: i64 = floor_quotient(c.r as i64, chunk_size as i64);
    Axial { q: q as i32, r: r as i32 }
}

/// The chunks of some coordinates.
pub open spec fn chunks_over(places: Set<Axial>, chunk_size: u32) -> Set<Axial> {
    places.map(|c: Axial| chunk_key(c, chunk_size))
}

/// One more place adds its own chunk.
pub proof fn lemma_chunks_over_insert(places: Set<Axial>, c: Axial, chunk_size: u32)
    ensures
        chunks_over(places.insert(c), chunk_size) == chunks_over(places, chunk_size).insert(
            chunk_key(c, chunk_size),
        ),
{
    let key = |d: Axial| chunk_key(d, chunk_size);
    let left = chunks_over(places.insert(c), chunk_size);
    let right = chunks_over(places, chunk_size).insert(chunk_key(c, chunk_size));
    assert forall|k: Axial| left.contains(k) <==> right.contains(k) by {
        if left.contains(k) {
            let d = choose|d: Axial| places.insert(c).contains(d) && k == key(d);
            if d != c {
                assert(places.contains(d) && k == key(d));
            }
        }
        if chunks_over(places, chunk_size).contains(k) {
            let d = choose|d: Axial| places.contains(d) && k == key(d);
            assert(places.insert(c).contains(d) && k == key(d));
        }
        if k == chunk_key(c, chunk_size) {
            assert(places.insert(c).contains(c) && k == key(c));
        }
    }
    assert(left =~= right);
}

/// The last row at each place.
pub open spec fn by_place(rows: Seq<CellTerrain>) -> Map<Axial, CellTerrain>
    decreases rows.len(),
{
    if rows.len() == 0 {
        Map::empty()
    } else {
        by_place(rows.drop_last()).insert(place_of(rows.last()), rows.last())
    }
}

pub open spec fn place_of(row: CellTerrain) -> Axial {
    Axial { q: row.q, r: row.r }
}

/// The last place of each number.
pub open spec fn by_number(rows: Seq<CellTerrain>) -> Map<u128, Axial>
    decreases rows.len(),
{
    if rows.len() == 0 {
        Map::empty()
    } else {
        by_number(rows.drop_last()).insert(rows.last().cell_id as u128, place_of(rows.last()))
    }
}

/// The places that nobody can take.
pub open spec fn untakeable(rows: Seq<CellTerrain>) -> Set<Axial>
    decreases rows.len(),
{
    if rows.len() == 0 {
        Set::empty()
    } else if rows.last().capturable {
        untakeable(rows.drop_last())
    } else {
        untakeable(rows.drop_last()).insert(place_of(rows.last()))
    }
}

pub open spec fn state_key() -> spec_fn(CellState) -> Option<u128> {
    |state: CellState| Some(state.cell_id as u128)
}

/// The cells that rows make.
pub open spec fn laid_out(rows: Seq<CellTerrain>, states: Seq<CellState>) -> Map<Axial, CellView> {
    let places = by_place(rows);
    Map::new(
        |c: Axial| places.contains_key(c),
        |c: Axial|
            cell_of(
                c,
                places[c],
                row_at(keyed(states, state_key()), places[c].cell_id as u128),
            ),
    )
}

/// What of the view has to be worked out again.
#[derive(Clone, Copy, Debug, Eq, PartialEq, Structural)]
pub struct CellChanges {
    pub cell_state: bool,
    pub planning: bool,
    pub ownership: bool,
}

/// The cells of the view and the numbers that the server knows them by.
#[derive(Debug)]
pub struct CellBoard {
    pub cells: AxialMap<CellView>,
    pub non_capturable_cells: AxialSet,
    pub coordinate_to_id: AxialMap<u32>,
    pub id_to_coordinate: Table<Axial>,
    pub dirty_chunks: AxialSet,
}

/// A board as maps and sets.
#[verifier::ext_equal]
pub ghost struct Ground {
    pub cells: Map<Axial, CellView>,
    pub untakeable: Set<Axial>,
    pub numbers: Map<Axial, u32>,
    pub places: Map<u128, Axial>,
    pub dirty: Set<Axial>,
}

impl View for CellBoard {
    type V = Ground;

    open spec fn view(&self) -> Ground {
        Ground {
            cells: self.cells@,
            untakeable: self.non_capturable_cells@,
            numbers: self.coordinate_to_id@,
            places: self.id_to_coordinate@,
            dirty: self.dirty_chunks@,
        }
    }
}

/// The place of a known cell.
pub open spec fn known_place(
    ids: Map<u128, Axial>,
    cells: Map<Axial, CellView>,
    cell_id: u32,
) -> Option<Axial> {
    if ids.contains_key(cell_id as u128) && cells.contains_key(ids[cell_id as u128]) {
        Some(ids[cell_id as u128])
    } else {
        None
    }
}

/// Whether a state matters to plans.
pub open spec fn replans(cell: CellView, state: CellState) -> bool {
    cell.owner != owner_of(state.owner_player_id) || cell.infantry != state.infantry
        || cell.military_capacity != state.military_capacity
}

/// Whether a state changes what is drawn.
pub open spec fn redraws(cell: CellView, state: CellState, mode: MapViewMode) -> bool {
    cell.owner != owner_of(state.owner_player_id) || (mode == MapViewMode::Civilians
        && cell.civilians != state.civilians) || (mode == MapViewMode::Soldiers && cell.infantry
        != state.infantry)
}

/// Whether one of some states matters to plans.
pub open spec fn some_replan(
    ids: Map<u128, Axial>,
    cells: Map<Axial, CellView>,
    states: Seq<CellState>,
) -> bool {
    exists|i: int|
        0 <= i < states.len() && known_place(ids, cells, (#[trigger] states[i]).cell_id) is Some
            && replans(cells[ids[states[i].cell_id as u128]], states[i])
}

/// Whether one of some states changes an owner.
pub open spec fn some_conquest(
    ids: Map<u128, Axial>,
    cells: Map<Axial, CellView>,
    states: Seq<CellState>,
) -> bool {
    exists|i: int|
        0 <= i < states.len() && known_place(ids, cells, (#[trigger] states[i]).cell_id) is Some
            && cells[ids[states[i].cell_id as u128]].owner != owner_of(states[i].owner_player_id)
}

/// The cells after states, one after the other.
pub open spec fn cells_after(
    ids: Map<u128, Axial>,
    cells: Map<Axial, CellView>,
    states: Seq<CellState>,
) -> Map<Axial, CellView>
    decreases states.len(),
{
    if states.len() == 0 {
        cells
    } else {
        let before = cells_after(ids, cells, states.drop_last());
        match known_place(ids, before, states.last().cell_id) {
            Some(c) => before.insert(c, restated(before[c], states.last())),
            None => before,
        }
    }
}

/// The chunks that are drawn again after states, one after the other.
pub open spec fn chunks_after(
    ids: Map<u128, Axial>,
    cells: Map<Axial, CellView>,
    states: Seq<CellState>,
    mode: MapViewMode,
    chunk_size: u32,
    dirty: Set<Axial>,
) -> Set<Axial>
    decreases states.len(),
{
    if states.len() == 0 {
        dirty
    } else {
        let before = cells_after(ids, cells, states.drop_last());
        let rest = chunks_after(ids, cells, states.drop_last(), mode, chunk_size, dirty);
        match known_place(ids, before, states.last().cell_id) {
            Some(c) => if redraws(before[c], states.last(), mode) {
                rest.insert(chunk_key(c, chunk_size))
            } else {
                rest
            },
            None => rest,
        }
    }
}

/// Whether a place is that of one of some cells.
pub open spec fn is_absent(ids: Map<u128, Axial>, absences: Set<u128>, c: Axial) -> bool {
    exists|k: u128| #[trigger] absences.contains(k) && ids.contains_key(k) && ids[k] == c
}

/// The cells when nothing is known of some any more.
pub open spec fn cells_without(
    ids: Map<u128, Axial>,
    cells: Map<Axial, CellView>,
    absences: Set<u128>,
) -> Map<Axial, CellView> {
    Map::new(
        |c: Axial| cells.contains_key(c),
        |c: Axial|
            if is_absent(ids, absences, c) {
                neutral(cells[c])
            } else {
                cells[c]
            },
    )
}

/// The cells that look different when nothing is known of them.
pub open spec fn fading(
    ids: Map<u128, Axial>,
    cells: Map<Axial, CellView>,
    absences: Set<u128>,
    mode: MapViewMode,
) -> Set<Axial> {
    Set::new(
        |c: Axial|
            cells.contains_key(c) && is_absent(ids, absences, c) && (cells[c].owner is Some
                || cells[c].infantry != 0 || (mode == MapViewMode::Civilians && cells[c].civilians
                != 0)),
    )
}

/// Whether a cell that is to be forgotten has an owner.
pub open spec fn some_owner_fades(
    ids: Map<u128, Axial>,
    cells: Map<Axial, CellView>,
    absences: Set<u128>,
) -> bool {
    exists|c: Axial| #[trigger]
        cells.contains_key(c) && is_absent(ids, absences, c) && cells[c].owner is Some
}

/// Whether a cell that is to be forgotten matters to plans.
pub open spec fn some_plan_fades(
    ids: Map<u128, Axial>,
    cells: Map<Axial, CellView>,
    absences: Set<u128>,
) -> bool {
    exists|c: Axial| #[trigger]
        cells.contains_key(c) && is_absent(ids, absences, c) && (cells[c].owner is Some
            || cells[c].infantry != 0 || cells[c].military_capacity != 0)
}

impl CellBoard {
    pub fn new() -> (board: CellBoard)
        ensures
            board.cells@ == Map::<Axial, CellView>::empty(),
            board.non_capturable_cells@ == Set::<Axial>::empty(),
            board.coordinate_to_id@ == Map::<Axial, u32>::empty(),
            board.id_to_coordinate@ == Map::<u128, Axial>::empty(),
            board.dirty_chunks@ == Set::<Axial>::empty(),
    {
        CellBoard {
            cells: AxialMap::new(),
            non_capturable_cells: AxialSet::new(),
            coordinate_to_id: AxialMap::new(),
            id_to_coordinate: Table::new(),
            dirty_chunks: AxialSet::new(),
        }
    }

    /// Lays the cells out anew. All chunks that held cells or hold them now are
    /// drawn again.
    pub fn rebuild_cells(
        &mut self,
        chunk_size: u32,
        terrain_rows: &Vec<CellTerrain>,
        state_rows: &Vec<CellState>,
    )
        requires
            chunk_size > 0,
        ensures
            final(self).cells@ == laid_out(terrain_rows@, state_rows@),
            final(self).non_capturable_cells@ == untakeable(terrain_rows@),
            final(self).coordinate_to_id@ == by_place(terrain_rows@).map_values(
                |row: CellTerrain| row.cell_id,
            ),
            final(self).id_to_coordinate@ == by_number(terrain_rows@),
            final(self).dirty_chunks@ == old(self).dirty_chunks@.union(
                chunks_over(old(self).cells@.dom(), chunk_size),
            ).union(chunks_over(by_place(terrain_rows@).dom(), chunk_size)),
    {
        let states = states_by_id(state_rows);
        self.mark_all_dirty(chunk_size);
        let ghost marked = self.dirty_chunks@;
        self.cells = AxialMap::new();
        self.non_capturable_cells = AxialSet::new();
        self.coordinate_to_id = AxialMap::new();
        self.id_to_coordinate = Table::new();
        let mut i: usize = 0;
        proof {
            let none = terrain_rows@.take(0);
            assert(none =~= Seq::<CellTerrain>::empty());
            assert(self.cells@ =~= laid_out(none, state_rows@));
            assert(self.coordinate_to_id@ =~= by_place(none).map_values(
                |row: CellTerrain| row.cell_id,
            ));
            assert(chunks_over(by_place(none).dom(), chunk_size) =~= Set::<Axial>::empty());
            assert(marked =~= marked.union(chunks_over(by_place(none).dom(), chunk_size)));
        }
        while i < terrain_rows.len()
            invariant
                i <= terrain_rows@.len(),
                chunk_size > 0,
                states@ == keyed(state_rows@, state_key()),
                self.cells@ == laid_out(terrain_rows@.take(i as int), state_rows@),
                self.non_capturable_cells@ == untakeable(terrain_rows@.take(i as int)),
                self.coordinate_to_id@ == by_place(terrain_rows@.take(i as int)).map_values(
                    |row: CellTerrain| row.cell_id,
                ),
                self.id_to_coordinate@ == by_number(terrain_rows@.take(i as int)),
                self.dirty_chunks@ == marked.union(
                    chunks_over(by_place(terrain_rows@.take(i as int)).dom(), chunk_size),
                ),
            decreases terrain_rows.len() - i,
        {
            let terrain = terrain_rows[i];
            let coordinate = Axial { q: terrain.q, r: terrain.r };
            let ghost done = terrain_rows@.take(i as int);
            let ghost more = terrain_rows@.take(i + 1);
            assert(more.drop_last() =~= done);
            if !terrain.capturable {
                self.non_capturable_cells.insert(coordinate);
            }
            let state: Option<CellState> = match states.get(terrain.cell_id as u128) {
                Some(state) => Some(*state),
                None => None,
            };
            self.coordinate_to_id.insert(coordinate, terrain.cell_id);
            self.id_to_coordinate.insert(terrain.cell_id as u128, coordinate);
            self.cells.insert(coordinate, cell_view_from_rows(coordinate, terrain, state));
            self.dirty_chunks.insert(chunk_of(coordinate, chunk_size));
            proof {
                assert(self.cells@ =~= laid_out(more, state_rows@));
                assert(self.coordinate_to_id@ =~= by_place(more).map_values(
                    |row: CellTerrain| row.cell_id,
                ));
                assert(by_place(more).dom() =~= by_place(done).dom().insert(coordinate));
                lemma_chunks_over_insert(by_place(done).dom(), coordinate, chunk_size);
                assert(self.dirty_chunks@ =~= marked.union(
                    chunks_over(by_place(more).dom(), chunk_size),
                ));
            }
            i += 1;
        }
        assert(terrain_rows@.take(i as int) =~= terrain_rows@);
    }

    fn mark_all_dirty(&mut self, chunk_size: u32)
        requires
            chunk_size > 0,
        ensures
            final(self).cells == old(self).cells,
            final(self).non_capturable_cells == old(self).non_capturable_cells,
            final(self).coordinate_to_id == old(self).coordinate_to_id,
            final(self).id_to_coordinate == old(self).id_to_coordinate,
            final(self).dirty_chunks@ == old(self).dirty_chunks@.union(
                chunks_over(old(self).cells@.dom(), chunk_size),
            ),
    {
        let places = self.cells.keys();
        let ghost before = self.dirty_chunks@;
        let mut i: usize = 0;
        proof {
            assert(places@.take(0).to_set() =~= Set::<Axial>::empty());
            assert(chunks_over(places@.take(0).to_set(), chunk_size) =~= Set::<Axial>::empty());
            assert(before =~= before.union(chunks_over(places@.take(0).to_set(), chunk_size)));
        }
        while i < places.len()
            invariant
                i <= places@.len(),
                chunk_size > 0,
                self.cells == old(self).cells,
                self.non_capturable_cells == old(self).non_capturable_cells,
                self.coordinate_to_id == old(self).coordinate_to_id,
                self.id_to_coordinate == old(self).id_to_coordinate,
                self.dirty_chunks@ == before.union(
                    chunks_over(places@.take(i as int).to_set(), chunk_size),
                ),
            decreases places.len() - i,
        {
            self.dirty_chunks.insert(chunk_of(places[i], chunk_size));
            proof {
                let done = places@.take(i as int);
                assert(places@.take(i + 1) =~= done.push(places@[i as int]));
                lemma_to_set_push(done, places@[i as int]);
                lemma_chunks_over_insert(done.to_set(), places@[i as int], chunk_size);
                assert(self.dirty_chunks@ =~= before.union(
                    chunks_over(places@.take(i + 1).to_set(), chunk_size),
                ));
            }
            i += 1;
        }
        assert(places@.take(i as int) =~= places@);
    }

    /// Gives cells their new state. Cells that the board does not hold are
    /// passed over.
    pub fn update_cells(
        &mut self,
        chunk_size: u32,
        states: &Vec<CellState>,
        mode: MapViewMode,
    ) -> (changes: CellChanges)
        requires
            chunk_size > 0,
        ensures
            changes.cell_state == (states@.len() > 0),
            changes.planning == some_replan(old(self).id_to_coordinate@, old(self).cells@, states@),
            changes.ownership == some_conquest(
                old(self).id_to_coordinate@,
                old(self).cells@,
                states@,
            ),
            final(self).cells@ == cells_after(
                old(self).id_to_coordinate@,
                old(self).cells@,
                states@,
            ),
            final(self).dirty_chunks@ == chunks_after(
                old(self).id_to_coordinate@,
                old(self).cells@,
                states@,
                mode,
                chunk_size,
                old(self).dirty_chunks@,
            ),
            final(self).id_to_coordinate == old(self).id_to_coordinate,
            final(self).coordinate_to_id == old(self).coordinate_to_id,
            final(self).non_capturable_cells == old(self).non_capturable_cells,
    {
        let changes = self.foresee(states);
        let ghost cells = self.cells@;
        let ghost dirty = self.dirty_chunks@;
        let ghost ids = self.id_to_coordinate@;
        let mut i: usize = 0;
        assert(states@.take(0) =~= Seq::<CellState>::empty());
        while i < states.len()
            invariant
                i <= states@.len(),
                chunk_size > 0,
                ids == self.id_to_coordinate@,
                self.id_to_coordinate == old(self).id_to_coordinate,
                self.coordinate_to_id == old(self).coordinate_to_id,
                self.non_capturable_cells == old(self).non_capturable_cells,
                self.cells@ == cells_after(ids, cells, states@.take(i as int)),
                self.dirty_chunks@ == chunks_after(
                    ids,
                    cells,
                    states@.take(i as int),
                    mode,
                    chunk_size,
                    dirty,
                ),
            decreases states.len() - i,
        {
            let state = states[i];
            assert(states@.take(i + 1).drop_last() =~= states@.take(i as int));
            if let Some((coordinate, cell)) = self.known_cell(state.cell_id) {
                let next = owner(state.owner_player_id);
                if cell.owner != next || (mode == MapViewMode::Civilians && cell.civilians
                    != state.civilians) || (mode == MapViewMode::Soldiers && cell.infantry
                    != state.infantry) {
                    self.dirty_chunks.insert(chunk_of(coordinate, chunk_size));
                }
                self.cells.insert(
                    coordinate,
                    CellView {
                        owner: next,
                        civilians: state.civilians,
                        infantry: state.infantry,
                        military_capacity: state.military_capacity,
                        ..cell
                    },
                );
            }
            i += 1;
        }
        assert(states@.take(i as int) =~= states@);
        changes
    }

    /// The cell with a number, if the board holds it.
    fn known_cell(&self, cell_id: u32) -> (found: Option<(Axial, CellView)>)
        ensures
            match found {
                Some((c, cell)) => known_place(self.id_to_coordinate@, self.cells@, cell_id)
                    == Some(c) && cell == self.cells@[c],
                None => known_place(self.id_to_coordinate@, self.cells@, cell_id) is None,
            },
    {
        match self.id_to_coordinate.get(cell_id as u128) {
            Some(c) => match self.cells.get(*c) {
                Some(cell) => Some((*c, *cell)),
                None => None,
            },
            None => None,
        }
    }

    /// What states will change.
    fn foresee(&self, states: &Vec<CellState>) -> (changes: CellChanges)
        ensures
            changes.cell_state == (states@.len() > 0),
            changes.planning == some_replan(self.id_to_coordinate@, self.cells@, states@),
            changes.ownership == some_conquest(self.id_to_coordinate@, self.cells@, states@),
    {
        let mut planning: bool = false;
        let mut ownership: bool = false;
        let mut i: usize = 0;
        let ghost ids = self.id_to_coordinate@;
        while i < states.len()
            invariant
                i <= states@.len(),
                ids == self.id_to_coordinate@,
                planning == some_replan(ids, self.cells@, states@.take(i as int)),
                ownership == some_conquest(ids, self.cells@, states@.take(i as int)),
            decreases states.len() - i,
        {
            let state = states[i];
            let ghost was_planning = planning;
            let ghost was_ownership = ownership;
            if let Some((_, cell)) = self.known_cell(state.cell_id) {
                let owner_changed: bool = cell.owner != owner(state.owner_player_id);
                ownership = ownership || owner_changed;
                planning = planning || owner_changed || cell.infantry != state.infantry
                    || cell.military_capacity != state.military_capacity;
            }
            proof {
                let done = states@.take(i as int);
                let more = states@.take(i + 1);
                assert(more[i as int] == state);
                if was_planning {
                    let j = choose|j: int|
                        0 <= j < done.len() && known_place(
                            ids,
                            self.cells@,
                            (#[trigger] done[j]).cell_id,
                        ) is Some && replans(self.cells@[ids[done[j].cell_id as u128]], done[j]);
                    assert(more[j] == done[j]);
                }
                if some_replan(ids, self.cells@, more) {
                    let j = choose|j: int|
                        0 <= j < more.len() && known_place(
                            ids,
                            self.cells@,
                            (#[trigger] more[j]).cell_id,
                        ) is Some && replans(self.cells@[ids[more[j].cell_id as u128]], more[j]);
                    if j < i {
                        assert(done[j] == more[j]);
                    }
                }
                if was_ownership {
                    let j = choose|j: int|
                        0 <= j < done.len() && known_place(
                            ids,
                            self.cells@,
                            (#[trigger] done[j]).cell_id,
                        ) is Some && self.cells@[ids[done[j].cell_id as u128]].owner != owner_of(
                            done[j].owner_player_id,
                        );
                    assert(more[j] == done[j]);
                }
                if some_conquest(ids, self.cells@, more) {
                    let j = choose|j: int|
                        0 <= j < more.len() && known_place(
                            ids,
                            self.cells@,
                            (#[trigger] more[j]).cell_id,
                        ) is Some && self.cells@[ids[more[j].cell_id as u128]].owner != owner_of(
                            more[j].owner_player_id,
                        );
                    if j < i {
                        assert(done[j] == more[j]);
                    }
                }
            }
            i += 1;
        }
        assert(states@.take(i as int) =~= states@);
        CellChanges { cell_state: states.len() > 0, planning, ownership }
    }
}

/// The states under the numbers of their cells.
fn states_by_id(state_rows: &Vec<CellState>) -> (states: Table<CellState>)
    ensures
        states@ == keyed(state_rows@, state_key()),
{
    let mut states: Table<CellState> = Table::new();
    let mut i: usize = 0;
    assert(state_rows@.take(0) =~= Seq::<CellState>::empty());
    while i < state_rows.len()
        invariant
            i <= state_rows@.len(),
            states@ == keyed(state_rows@.take(i as int), state_key()),
        decreases state_rows.len() - i,
    {
        assert(state_rows@.take(i + 1).drop_last() =~= state_rows@.take(i as int));
        states.insert(state_rows[i].cell_id as u128, state_rows[i]);
        i += 1;
    }
    assert(state_rows@.take(i as int) =~= state_rows@);
    states
}

proof fn lemma_absent_insert(ids: Map<u128, Axial>, done: Set<u128>, key: u128, c: Axial)
    ensures
        is_absent(ids, done.insert(key), c) == (is_absent(ids, done, c) || (ids.contains_key(key)
            && ids[key] == c)),
{
    if is_absent(ids, done, c) {
        let k = choose|k: u128| #[trigger]
            done.contains(k) && ids.contains_key(k) && ids[k] == c;
        assert(done.insert(key).contains(k));
    }
    if ids.contains_key(key) && ids[key] == c {
        assert(done.insert(key).contains(key));
    }
    if is_absent(ids, done.insert(key), c) {
        let k = choose|k: u128| #[trigger]
            done.insert(key).contains(k) && ids.contains_key(k) && ids[k] == c;
        if k != key {
            assert(done.contains(k));
        }
    }
}

/// One more cell of which nothing is known.
proof fn lemma_fade(
    ids: Map<u128, Axial>,
    cells: Map<Axial, CellView>,
    done: Set<u128>,
    key: u128,
    mode: MapViewMode,
)
    ensures
        ids.contains_key(key) && cells.contains_key(ids[key]) ==> {
            let c = ids[key];
            let seen = cells_without(ids, cells, done)[c];
            &&& cells_without(ids, cells, done.insert(key)) == cells_without(
                ids,
                cells,
                done,
            ).insert(c, neutral(seen))
            &&& fading(ids, cells, done.insert(key), mode) == (if seen.owner is Some
                || seen.infantry != 0 || (mode == MapViewMode::Civilians && seen.civilians != 0) {
                fading(ids, cells, done, mode).insert(c)
            } else {
                fading(ids, cells, done, mode)
            })
            &&& some_owner_fades(ids, cells, done.insert(key)) == (some_owner_fades(
                ids,
                cells,
                done,
            ) || seen.owner is Some)
            &&& some_plan_fades(ids, cells, done.insert(key)) == (some_plan_fades(ids, cells, done)
                || seen.owner is Some || seen.infantry != 0 || seen.military_capacity != 0)
        },
        !(ids.contains_key(key) && cells.contains_key(ids[key])) ==> {
            &&& cells_without(ids, cells, done.insert(key)) == cells_without(ids, cells, done)
            &&& fading(ids, cells, done.insert(key), mode) == fading(ids, cells, done, mode)
            &&& some_owner_fades(ids, cells, done.insert(key)) == some_owner_fades(ids, cells, done)
            &&& some_plan_fades(ids, cells, done.insert(key)) == some_plan_fades(ids, cells, done)
        },
{
    let more = done.insert(key);
    assert forall|c: Axial| #[trigger]
        is_absent(ids, more, c) == (is_absent(ids, done, c) || (ids.contains_key(key) && ids[key]
            == c)) by {
        lemma_absent_insert(ids, done, key, c);
    }
    if ids.contains_key(key) && cells.contains_key(ids[key]) {
        let c = ids[key];
        let seen = cells_without(ids, cells, done)[c];
        assert(cells_without(ids, cells, more) =~= cells_without(ids, cells, done).insert(
            c,
            neutral(seen),
        ));
        let set = if seen.owner is Some || seen.infantry != 0 || (mode == MapViewMode::Civilians
            && seen.civilians != 0) {
            fading(ids, cells, done, mode).insert(c)
        } else {
            fading(ids, cells, done, mode)
        };
        assert(is_absent(ids, more, c));
        assert(fading(ids, cells, more, mode) =~= set);
        if some_owner_fades(ids, cells, done) {
            let d = choose|d: Axial| #[trigger]
                cells.contains_key(d) && is_absent(ids, done, d) && cells[d].owner is Some;
            assert(is_absent(ids, more, d));
        }
        if some_owner_fades(ids, cells, more) {
            let d = choose|d: Axial| #[trigger]
                cells.contains_key(d) && is_absent(ids, more, d) && cells[d].owner is Some;
            assert(d == c || is_absent(ids, done, d));
        }
        if some_plan_fades(ids, cells, done) {
            let d = choose|d: Axial| #[trigger]
                cells.contains_key(d) && is_absent(ids, done, d) && (cells[d].owner is Some
                    || cells[d].infantry != 0 || cells[d].military_capacity != 0);
            assert(is_absent(ids, more, d));
        }
        if some_plan_fades(ids, cells, more) {
            let d = choose|d: Axial| #[trigger]
                cells.contains_key(d) && is_absent(ids, more, d) && (cells[d].owner is Some
                    || cells[d].infantry != 0 || cells[d].military_capacity != 0);
            assert(d == c || is_absent(ids, done, d));
        }
    } else {
        assert forall|c: Axial| #[trigger] cells.contains_key(c) implies is_absent(ids, more, c)
            == is_absent(ids, done, c) by {}
        assert(cells_without(ids, cells, more) =~= cells_without(ids, cells, done));
        assert(fading(ids, cells, more, mode) =~= fading(ids, cells, done, mode));
    }
}

impl CellBoard {
    /// Forgets the state of cells that are no longer reported. Their terrain
    /// stays.
    pub fn neutralize_absent_cells(
        &mut self,
        chunk_size: u32,
        absences: &KeySet,
        mode: MapViewMode,
    ) -> (changes: CellChanges)
        requires
            chunk_size > 0,
        ensures
            changes.cell_state == !(absences@ =~= Set::<u128>::empty()),
            changes.planning == some_plan_fades(
                old(self).id_to_coordinate@,
                old(self).cells@,
                absences@,
            ),
            changes.ownership == some_owner_fades(
                old(self).id_to_coordinate@,
                old(self).cells@,
                absences@,
            ),
            final(self).cells@ == cells_without(
                old(self).id_to_coordinate@,
                old(self).cells@,
                absences@,
            ),
            final(self).dirty_chunks@ == old(self).dirty_chunks@.union(
                chunks_over(
                    fading(old(self).id_to_coordinate@, old(self).cells@, absences@, mode),
                    chunk_size,
                ),
            ),
            final(self).id_to_coordinate == old(self).id_to_coordinate,
            final(self).coordinate_to_id == old(self).coordinate_to_id,
            final(self).non_capturable_cells == old(self).non_capturable_cells,
    {
        let keys = absences.to_vec();
        let ghost ids = self.id_to_coordinate@;
        let ghost cells = self.cells@;
        let ghost dirty = self.dirty_chunks@;
        let mut planning: bool = false;
        let mut ownership: bool = false;
        let mut i: usize = 0;
        proof {
            let none = keys@.take(0).to_set();
            assert(none =~= Set::<u128>::empty());
            assert(cells_without(ids, cells, none) =~= cells);
            assert(fading(ids, cells, none, mode) =~= Set::<Axial>::empty());
            assert(chunks_over(fading(ids, cells, none, mode), chunk_size)
                =~= Set::<Axial>::empty());
            assert(dirty =~= dirty.union(
                chunks_over(fading(ids, cells, none, mode), chunk_size),
            ));
        }
        while i < keys.len()
            invariant
                i <= keys@.len(),
                chunk_size > 0,
                ids == self.id_to_coordinate@,
                self.id_to_coordinate == old(self).id_to_coordinate,
                self.coordinate_to_id == old(self).coordinate_to_id,
                self.non_capturable_cells == old(self).non_capturable_cells,
                self.cells@ == cells_without(ids, cells, keys@.take(i as int).to_set()),
                self.dirty_chunks@ == dirty.union(
                    chunks_over(
                        fading(ids, cells, keys@.take(i as int).to_set(), mode),
                        chunk_size,
                    ),
                ),
                planning == some_plan_fades(ids, cells, keys@.take(i as int).to_set()),
                ownership == some_owner_fades(ids, cells, keys@.take(i as int).to_set()),
            decreases keys.len() - i,
        {
            let key = keys[i];
            let ghost done = keys@.take(i as int);
            proof {
                assert(keys@.take(i + 1) =~= done.push(key));
                lemma_to_set_push(done, key);
                lemma_fade(ids, cells, done.to_set(), key, mode);
            }
            if let Some(c) = self.id_to_coordinate.get(key) {
                let coordinate = *c;
                if let Some(seen) = self.cells.get(coordinate) {
                    let cell: CellView = *seen;
                    if cell.owner.is_some() || cell.infantry != 0 || (mode == MapViewMode::Civilians
                        && cell.civilians != 0) {
                        self.dirty_chunks.insert(chunk_of(coordinate, chunk_size));
                        proof {
                            lemma_chunks_over_insert(
                                fading(ids, cells, done.to_set(), mode),
                                coordinate,
                                chunk_size,
                            );
                            assert(self.dirty_chunks@ =~= dirty.union(
                                chunks_over(
                                    fading(ids, cells, done.to_set().insert(key), mode),
                                    chunk_size,
                                ),
                            ));
                        }
                    }
                    ownership = ownership || cell.owner.is_some();
                    planning = planning || cell.owner.is_some() || cell.infantry != 0
                        || cell.military_capacity != 0;
                    self.cells.insert(
                        coordinate,
                        CellView {
                            owner: None,
                            civilians: 0,
                            infantry: 0,
                            military_capacity: 0,
                            ..cell
                        },
                    );
                }
            }
            i += 1;
        }
        assert(keys@.take(i as int) =~= keys@);
        CellChanges { cell_state: !absences.is_empty(), planning, ownership }
    }
}

/// How a seat is taken.
#[derive(Clone, Copy, Debug, Eq, PartialEq, Structural)]
pub enum ConnectionState {
    Syncing,
    Open,
    Connected,
    ClaimedOffline,
}

/// Who somebody is to the server: a number of two halves.
#[derive(Clone, Copy, Debug, Eq, PartialEq, Structural)]
pub struct Identity {
    pub high: u128,
    pub low: u128,
}

/// A seat of the match, and who has claimed it.
#[derive(Clone, Copy, Debug, Eq, PartialEq, Structural)]
pub struct PlayerSlot {
    pub player_id: u16,
    pub identity: Option<Identity>,
    pub connected: bool,
}

pub open spec fn seat_state(slot: PlayerSlot) -> ConnectionState {
    if slot.identity is None {
        ConnectionState::Open
    } else if slot.connected {
        ConnectionState::Connected
    } else {
        ConnectionState::ClaimedOffline
    }
}

/// Whether a seat is one of the match.
pub open spec fn is_seat(slot: PlayerSlot, player_count: u16) -> bool {
    1 <= slot.player_id <= player_count
}

/// The states of all seats; a seat that is not reported is still to come.
pub open spec fn seats(player_count: u16, slots: Seq<PlayerSlot>) -> Seq<ConnectionState>
    decreases slots.len(),
{
    if slots.len() == 0 {
        Seq::new(player_count as nat, |i: int| ConnectionState::Syncing)
    } else if is_seat(slots.last(), player_count) {
        seats(player_count, slots.drop_last()).update(
            slots.last().player_id - 1,
            seat_state(slots.last()),
        )
    } else {
        seats(player_count, slots.drop_last())
    }
}

/// The seat that somebody has claimed.
pub open spec fn local_seat(
    player_count: u16,
    slots: Seq<PlayerSlot>,
    identity: Option<Identity>,
) -> Option<u16>
    decreases slots.len(),
{
    if slots.len() == 0 {
        None
    } else if is_seat(slots.last(), player_count) && identity is Some
        && slots.last().identity == identity {
        Some(slots.last().player_id)
    } else {
        local_seat(player_count, slots.drop_last(), identity)
    }
}

/// Reads the seats off the rows: their states, and which one is this client's.
pub fn read_players(
    player_count: u16,
    slots: &Vec<PlayerSlot>,
    identity: Option<Identity>,
) -> (read: (Vec<ConnectionState>, Option<u16>))
    ensures
        read.0@ == seats(player_count, slots@),
        read.1 == local_seat(player_count, slots@, identity),
{
    let mut states: Vec<ConnectionState> = Vec::new();
    let mut n: u16 = 0;
    while n < player_count
        invariant
            n <= player_count,
            states@ =~= Seq::new(n as nat, |i: int| ConnectionState::Syncing),
        decreases player_count - n,
    {
        states.push(ConnectionState::Syncing);
        n += 1;
    }
    let mut local: Option<u16> = None;
    let mut i: usize = 0;
    assert(slots@.take(0) =~= Seq::<PlayerSlot>::empty());
    while i < slots.len()
        invariant
            i <= slots@.len(),
            states@ == seats(player_count, slots@.take(i as int)),
            states@.len() == player_count,
            local == local_seat(player_count, slots@.take(i as int), identity),
        decreases slots.len() - i,
    {
        let slot = slots[i];
        assert(slots@.take(i + 1).drop_last() =~= slots@.take(i as int));
        if slot.player_id >= 1 && slot.player_id <= player_count {
            let state = if slot.identity.is_none() {
                ConnectionState::Open
            } else if slot.connected {
                ConnectionState::Connected
            } else {
                ConnectionState::ClaimedOffline
            };
            states.set(slot.player_id as usize - 1, state);
            if identity.is_some() && slot.identity == identity {
                local = Some(slot.player_id);
            }
        }
        i += 1;
    }
    assert(slots@.take(i as int) =~= slots@);
    (states, local)
}

/// What is forgotten once is forgotten: doing it again changes nothing.
pub proof fn law_forgetting_is_final(
    ids: Map<u128, Axial>,
    cells: Map<Axial, CellView>,
    absences: Set<u128>,
)
    ensures
        cells_without(ids, cells_without(ids, cells, absences), absences) == cells_without(
            ids,
            cells,
            absences,
        ),
{
    assert(cells_without(ids, cells_without(ids, cells, absences), absences) =~= cells_without(
        ids,
        cells,
        absences,
    ));
}

/// A change of owners is a change for plans too.
pub proof fn law_conquests_matter_to_plans(
    ids: Map<u128, Axial>,
    cells: Map<Axial, CellView>,
    states: Seq<CellState>,
)
    ensures
        some_conquest(ids, cells, states) ==> some_replan(ids, cells, states),
{
}

} // verus!
