//! Cells, terrain rules and the ordered map of the world.
use vstd::prelude::*;
use vstd::string::*;
use crate::axials::{ascending, ordered, AxialMap, EdgeMap};
use crate::coord::{abs, adjacent, edge_of, Axial, HexEdge};
use crate::text::{append_axial, append_decimal, axial_text, decimal, text};

verus! {

pub type Strength = u64;

pub type PlayerId = u32;

/// Carries infantry only, while retaining a composition-shaped state.
#[derive(Clone, Copy, Debug, Eq, PartialEq, Structural)]
pub struct ForceComposition {
    pub infantry: Strength,
}

impl ForceComposition {
    pub fn infantry(strength: Strength) -> (forces: ForceComposition)
        ensures
            forces.infantry == strength,
    {
        ForceComposition { infantry: strength }
    }

    /// Infantry has a capacity weight of one.
    pub fn weighted_strength(self) -> (strength: Strength)
        ensures
            strength == self.infantry,
    {
        self.infantry
    }
}

impl Default for ForceComposition {
    fn default() -> (forces: ForceComposition)
        ensures
            forces.infantry == 0,
    {
        ForceComposition { infantry: 0 }
    }
}

#[derive(Clone, Copy, Debug, Eq, Hash, Ord, PartialEq, PartialOrd, Structural)]
pub enum TerrainKind {
    Plains,
    Hills,
    Mountain,
    Water,
}

impl Default for TerrainKind {
    fn default() -> (kind: TerrainKind)
        ensures
            kind == TerrainKind::Plains,
    {
        TerrainKind::Plains
    }
}

impl TerrainKind {
    pub fn ground_passable(self) -> (passable: bool)
        ensures
            passable == (self != TerrainKind::Water),
    {
        !matches!(self, TerrainKind::Water)
    }
}

/// Static and dynamic state at one authoritative gameplay hex.
#[derive(Clone, Copy, Debug, Eq, PartialEq)]
pub struct Cell {
    pub coordinate: Axial,
    pub terrain: TerrainKind,
    pub elevation: i16,
    pub capturable: bool,
    pub habitable: bool,
    pub owner: Option<PlayerId>,
    pub civilian_population: u64,
    pub civilian_capacity: u64,
    pub forces: ForceComposition,
    pub military_capacity: Strength,
}

/// Whether a cell holds something that a water cell must not hold.
pub open spec fn carries_land_state(cell: Cell) -> bool {
    ||| cell.capturable
    ||| cell.habitable
    ||| cell.owner is Some
    ||| cell.military_capacity != 0
    ||| cell.forces.infantry != 0
    ||| cell.civilian_population != 0
    ||| cell.civilian_capacity != 0
}

/// The first broken rule of a cell as a message, if it breaks one.
pub open spec fn cell_fault(cell: Cell) -> Option<Seq<char>> {
    if cell.forces.infantry > cell.military_capacity {
        Some(
            "cell "@ + axial_text(cell.coordinate) + " force "@ + decimal(
                cell.forces.infantry as int,
            ) + " exceeds military capacity "@ + decimal(cell.military_capacity as int),
        )
    } else if cell.civilian_population > cell.civilian_capacity {
        Some(
            "cell "@ + axial_text(cell.coordinate) + " civilian population "@ + decimal(
                cell.civilian_population as int,
            ) + " exceeds capacity "@ + decimal(cell.civilian_capacity as int),
        )
    } else if cell.terrain == TerrainKind::Water && carries_land_state(cell) {
        Some(
            "water cell "@ + axial_text(cell.coordinate)
                + " must be empty, unowned, and non-capturable"@,
        )
    } else {
        None
    }
}

impl Cell {
    pub fn ground(
        coordinate: Axial,
        elevation: i16,
        owner: Option<PlayerId>,
        military_capacity: Strength,
    ) -> (cell: Cell)
        ensures
            cell == (Cell {
                coordinate,
                terrain: TerrainKind::Plains,
                elevation,
                capturable: true,
                habitable: true,
                owner,
                civilian_population: 0,
                civilian_capacity: 0,
                forces: ForceComposition { infantry: 0 },
                military_capacity,
            }),
    {
        Cell {
            coordinate,
            terrain: TerrainKind::Plains,
            elevation,
            capturable: true,
            habitable: true,
            owner,
            civilian_population: 0,
            civilian_capacity: 0,
            forces: ForceComposition { infantry: 0 },
            military_capacity,
        }
    }

    pub fn water(coordinate: Axial, elevation: i16) -> (cell: Cell)
        ensures
            cell == (Cell {
                coordinate,
                terrain: TerrainKind::Water,
                elevation,
                capturable: false,
                habitable: false,
                owner: None,
                civilian_population: 0,
                civilian_capacity: 0,
                forces: ForceComposition { infantry: 0 },
                military_capacity: 0,
            }),
            cell_fault(cell) is None,
    {
        Cell {
            coordinate,
            terrain: TerrainKind::Water,
            elevation,
            capturable: false,
            habitable: false,
            owner: None,
            civilian_population: 0,
            civilian_capacity: 0,
            forces: ForceComposition { infantry: 0 },
            military_capacity: 0,
        }
    }

    /// Rejects capacity overflows and water cells that carry land state.
    pub fn validate(&self) -> (verdict: Result<(), String>)
        ensures
            match verdict {
                Ok(_) => cell_fault(*self) is None,
                Err(message) => cell_fault(*self) == Some(message@),
            },
    {
        if self.force() > self.military_capacity {
            let mut message = text("cell ");
            append_axial(&mut message, self.coordinate);
            message.append(" force ");
            append_decimal(&mut message, self.force());
            message.append(" exceeds military capacity ");
            append_decimal(&mut message, self.military_capacity);
            return Err(message);
        }
        if self.civilian_population > self.civilian_capacity {
            let mut message = text("cell ");
            append_axial(&mut message, self.coordinate);
            message.append(" civilian population ");
            append_decimal(&mut message, self.civilian_population);
            message.append(" exceeds capacity ");
            append_decimal(&mut message, self.civilian_capacity);
            return Err(message);
        }
        if self.terrain == TerrainKind::Water && (self.capturable || self.habitable
            || self.owner.is_some() || self.military_capacity != 0 || self.force() != 0
            || self.civilian_population != 0 || self.civilian_capacity != 0) {
            let mut message = text("water cell ");
            append_axial(&mut message, self.coordinate);
            message.append(" must be empty, unowned, and non-capturable");
            return Err(message);
        }
        Ok(())
    }

    /// Takes a cell from outside only if it keeps every cell rule.
    pub fn try_from(raw: Cell) -> (cell: Result<Cell, String>)
        ensures
            match cell {
                Ok(c) => c == raw && cell_fault(raw) is None,
                Err(message) => cell_fault(raw) == Some(message@),
            },
    {
        match raw.validate() {
            Ok(_) => Ok(raw),
            Err(message) => Err(message),
        }
    }

    pub fn force(&self) -> (strength: Strength)
        ensures
            strength == self.forces.infantry,
    {
        self.forces.weighted_strength()
    }

    pub fn free_military_capacity(&self) -> (free: Strength)
        ensures
            free == (if self.military_capacity >= self.forces.infantry {
                self.military_capacity - self.forces.infantry
            } else {
                0
            }),
            free > 0 ==> free + self.forces.infantry == self.military_capacity,
            self.forces.infantry + free >= self.military_capacity,
    {
        self.military_capacity.saturating_sub(self.force())
    }
}

#[derive(Clone, Copy, Debug, Eq, PartialEq, Structural)]
pub struct MovementConfig {
    pub max_elevation_step: u16,
    pub level_cost: u32,
    pub uphill_cost: u32,
    pub downhill_cost: u32,
}

impl Default for MovementConfig {
    fn default() -> (config: MovementConfig)
        ensures
            config == (MovementConfig {
                max_elevation_step: 1,
                level_cost: 10,
                uphill_cost: 15,
                downhill_cost: 10,
            }),
    {
        MovementConfig { max_elevation_step: 1, level_cost: 10, uphill_cost: 15, downhill_cost: 10 }
    }
}

#[derive(Clone, Copy, Debug, Eq, PartialEq, Structural)]
pub struct Traversal {
    pub cost: u32,
    pub elevation_delta: i32,
}

impl Traversal {
    pub fn is_uphill(self) -> (uphill: bool)
        ensures
            uphill == (self.elevation_delta > 0),
    {
        self.elevation_delta > 0
    }
}

/// Whether ground forces may step from one cell to another: the cells are
/// adjacent, both are passable, and the slope is within the limit.
pub open spec fn traversable(from: Cell, to: Cell, config: MovementConfig) -> bool {
    &&& adjacent(from.coordinate, to.coordinate)
    &&& from.terrain != TerrainKind::Water
    &&& to.terrain != TerrainKind::Water
    &&& abs(to.elevation - from.elevation) <= config.max_elevation_step
}

/// The cost of a step, by the sign of its slope.
pub open spec fn step_cost(from: Cell, to: Cell, config: MovementConfig) -> nat {
    if to.elevation > from.elevation {
        config.uphill_cost as nat
    } else if to.elevation < from.elevation {
        config.downhill_cost as nat
    } else {
        config.level_cost as nat
    }
}

/// Checks adjacency, terrain passability, and the one-level slope rule.
pub fn ground_traversal(from: &Cell, to: &Cell, config: &MovementConfig) -> (traversal: Option<
    Traversal,
>)
    ensures
        traversal is Some <==> traversable(*from, *to, *config),
        traversal matches Some(t) ==> {
            &&& t.cost == step_cost(*from, *to, *config)
            &&& t.elevation_delta == to.elevation - from.elevation
        },
{
    if from.coordinate.distance(to.coordinate) != 1 || !from.terrain.ground_passable()
        || !to.terrain.ground_passable() {
        return None;
    }
    let delta: i32 = to.elevation as i32 - from.elevation as i32;
    if crate::coord::magnitude(delta as i64) > config.max_elevation_step as u64 {
        return None;
    }
    let cost: u32 = if delta > 0 {
        config.uphill_cost
    } else if delta < 0 {
        config.downhill_cost
    } else {
        config.level_cost
    };
    Some(Traversal { cost, elevation_delta: delta })
}

#[derive(Clone, Copy, Debug, Eq, PartialEq, Structural)]
pub struct EdgeLimits {
    /// Strength that may cross the undirected edge in one logical step.
    pub throughput: Strength,
    /// Strength that may actively fight across the edge in one combat step.
    pub frontage: Strength,
}

#[derive(Clone, Copy, Debug, Eq, PartialEq, Structural)]
pub struct LogisticsConfig {
    pub default_military_capacity: Strength,
    pub default_edge_throughput: Strength,
    pub default_combat_frontage: Strength,
}

impl Default for LogisticsConfig {
    fn default() -> (config: LogisticsConfig)
        ensures
            config == (LogisticsConfig {
                default_military_capacity: 100,
                default_edge_throughput: 20,
                default_combat_frontage: 25,
            }),
    {
        LogisticsConfig {
            default_military_capacity: 100,
            default_edge_throughput: 20,
            default_combat_frontage: 25,
        }
    }
}

/// The limits of an edge without an override.
pub open spec fn default_limits(config: LogisticsConfig) -> EdgeLimits {
    EdgeLimits {
        throughput: config.default_edge_throughput,
        frontage: config.default_combat_frontage,
    }
}

impl LogisticsConfig {
    pub fn default_edge_limits(self) -> (limits: EdgeLimits)
        ensures
            limits == default_limits(self),
    {
        EdgeLimits {
            throughput: self.default_edge_throughput,
            frontage: self.default_combat_frontage,
        }
    }
}

/// A deterministic map container. Ordered maps keep every walk stable.
#[derive(Debug, Eq, PartialEq)]
pub struct HexMap {
    cells: AxialMap<Cell>,
    edge_limits: EdgeMap<EdgeLimits>,
}

/// The view of a map is its cells; the limits that single edges have stand beside
/// it, as `overrides`.
impl View for HexMap {
    type V = Map<Axial, Cell>;

    closed spec fn view(&self) -> Map<Axial, Cell> {
        self.cells@
    }
}

/// The force of each listed cell added up.
pub open spec fn force_sum(cells: Map<Axial, Cell>, listed: Seq<Axial>) -> int
    decreases listed.len(),
{
    if listed.len() == 0 {
        0
    } else {
        force_sum(cells, listed.drop_last()) + cells[listed.last()].forces.infantry
    }
}

/// The force on the whole map.
pub open spec fn map_force(cells: Map<Axial, Cell>) -> int {
    force_sum(cells, ordered(cells.dom()))
}

/// The entries of a map as they stand outside the library, before any rule of
/// the container has been tested.
#[derive(Debug, Eq, PartialEq)]
pub struct RawHexMap {
    pub cells: AxialMap<Cell>,
    pub edge_limits: EdgeMap<EdgeLimits>,
}

/// Whether a cell is filed under another coordinate than its own.
pub open spec fn misfiled(cells: Map<Axial, Cell>, key: Axial) -> bool {
    cells.contains_key(key) && cells[key].coordinate != key
}

/// Whether an edge refers to a cell that is not there.
pub open spec fn dangling(cells: Map<Axial, Cell>, edge: HexEdge) -> bool {
    !cells.contains_key(edge.a) || !cells.contains_key(edge.b)
}

pub open spec fn misfiled_text(key: Axial, coordinate: Axial) -> Seq<char> {
    "map cell keyed at "@ + axial_text(key) + " disagrees with its coordinate "@ + axial_text(
        coordinate,
    )
}

pub open spec fn dangling_text(edge: HexEdge) -> Seq<char> {
    "edge limits reference missing cells: "@ + axial_text(edge.a) + " and "@ + axial_text(edge.b)
}

impl HexMap {
    /// The edge-limit overrides.
    pub closed spec fn overrides(&self) -> Map<HexEdge, EdgeLimits> {
        self.edge_limits@
    }

    /// The limits in force on an edge.
    pub open spec fn limits_of(&self, edge: HexEdge, config: LogisticsConfig) -> EdgeLimits {
        if self.overrides().contains_key(edge) {
            self.overrides()[edge]
        } else {
            default_limits(config)
        }
    }

    /// The map holds finitely many cells, which can be put in ascending order.
    pub proof fn lemma_finite(&self)
        ensures
            self@.dom().finite(),
            ascending(ordered(self@.dom())),
            ordered(self@.dom()).to_set() == self@.dom(),
    {
        self.cells.lemma_finite();
        crate::axials::lemma_ordered(self@.dom());
    }

    pub fn new() -> (map: HexMap)
        ensures
            map@ == Map::<Axial, Cell>::empty(),
            map.overrides() == Map::<HexEdge, EdgeLimits>::empty(),
    {
        HexMap { cells: AxialMap::new(), edge_limits: EdgeMap::new() }
    }

    /// Takes the entries over if every cell is filed under its own coordinate
    /// and every override connects two existing cells; otherwise reports the
    /// first offending entry.
    pub fn try_from(raw: RawHexMap) -> (map: Result<HexMap, String>)
        ensures
            match map {
                Ok(m) => {
                    &&& m@ == raw.cells@
                    &&& m.overrides() == raw.edge_limits@
                    &&& forall|k: Axial| !misfiled(raw.cells@, k)
                    &&& forall|e: HexEdge| #[trigger]
                        raw.edge_limits@.contains_key(e) ==> !dangling(raw.cells@, e)
                },
                Err(message) => {
                    ||| exists|i: int|
                        #![trigger ordered(raw.cells@.dom())[i]]
                        {
                            let keys = ordered(raw.cells@.dom());
                            &&& 0 <= i < keys.len()
                            &&& misfiled(raw.cells@, keys[i])
                            &&& forall|j: int| 0 <= j < i ==> !misfiled(raw.cells@, keys[j])
                            &&& message@ == misfiled_text(keys[i], raw.cells@[keys[i]].coordinate)
                        }
                    ||| {
                        &&& forall|k: Axial| !misfiled(raw.cells@, k)
                        &&& exists|e: HexEdge| #[trigger]
                            raw.edge_limits@.contains_key(e) && dangling(raw.cells@, e)
                                && message@ == dangling_text(e) && forall|f: HexEdge| #[trigger]
                                raw.edge_limits@.contains_key(f) && crate::axials::edge_lt(f, e)
                                    ==> !dangling(raw.cells@, f)
                    }
                },
            },
    {
        let keys = raw.cells.keys();
        let mut i: usize = 0;
        while i < keys.len()
            invariant
                i <= keys.len(),
                keys@ == ordered(raw.cells@.dom()),
                keys@.to_set() == raw.cells@.dom(),
                forall|j: int| 0 <= j < i ==> !misfiled(raw.cells@, #[trigger] keys@[j]),
            decreases keys.len() - i,
        {
            let key = keys[i];
            assert(keys@.to_set().contains(key));
            match raw.cells.get(key) {
                Some(cell) => {
                    if cell.coordinate != key {
                        let mut message = text("map cell keyed at ");
                        append_axial(&mut message, key);
                        message.append(" disagrees with its coordinate ");
                        append_axial(&mut message, cell.coordinate);
                        assert(ordered(raw.cells@.dom())[i as int] == key);
                        return Err(message);
                    }
                },
                None => {},
            }
            i += 1;
        }
        assert forall|k: Axial| !misfiled(raw.cells@, k) by {
            if raw.cells@.contains_key(k) {
                assert(keys@.to_set().contains(k));
                let j = choose|j: int| 0 <= j < keys@.len() && keys@[j] == k;
                assert(!misfiled(raw.cells@, keys@[j]));
            }
        }
        let edges = raw.edge_limits.keys();
        let mut e: usize = 0;
        while e < edges.len()
            invariant
                e <= edges.len(),
                forall|k: Axial| !misfiled(raw.cells@, k),
                edges@.to_set() == raw.edge_limits@.dom(),
                crate::axials::edges_ascending(edges@),
                forall|j: int| 0 <= j < e ==> !dangling(raw.cells@, #[trigger] edges@[j]),
            decreases edges.len() - e,
        {
            let edge = edges[e];
            if !raw.cells.contains(edge.a) || !raw.cells.contains(edge.b) {
                let mut message = text("edge limits reference missing cells: ");
                append_axial(&mut message, edge.a);
                message.append(" and ");
                append_axial(&mut message, edge.b);
                proof {
                    assert(edges@.to_set().contains(edge));
                    assert(raw.edge_limits@.contains_key(edge));
                    assert forall|f: HexEdge| #[trigger]
                        raw.edge_limits@.contains_key(f) && crate::axials::edge_lt(
                            f,
                            edge,
                        ) implies !dangling(raw.cells@, f) by {
                        assert(edges@.to_set().contains(f));
                        let j = choose|j: int| 0 <= j < edges@.len() && edges@[j] == f;
                        if j > e {
                            assert(crate::axials::edge_lt(edges@[e as int], edges@[j]));
                        }
                        assert(!dangling(raw.cells@, edges@[j]));
                    }
                }
                return Err(message);
            }
            e += 1;
        }
        assert forall|f: HexEdge| #[trigger] raw.edge_limits@.contains_key(f) implies !dangling(
            raw.cells@,
            f,
        ) by {
            assert(edges@.to_set().contains(f));
            let j = choose|j: int| 0 <= j < edges@.len() && edges@[j] == f;
            assert(!dangling(raw.cells@, edges@[j]));
        }
        Ok(HexMap { cells: raw.cells, edge_limits: raw.edge_limits })
    }

    /// The entries of the map.
    pub fn to_raw(&self) -> (raw: RawHexMap)
        ensures
            raw.cells@ == self@,
            raw.edge_limits@ == self.overrides(),
    {
        RawHexMap { cells: self.cells.clone(), edge_limits: self.edge_limits.clone() }
    }

    /// Files a cell under its coordinate; gives back the cell it replaces.
    pub fn insert(&mut self, cell: Cell) -> (replaced: Option<Cell>)
        ensures
            final(self)@ == old(self)@.insert(cell.coordinate, cell),
            final(self).overrides() == old(self).overrides(),
            replaced == (if old(self)@.contains_key(cell.coordinate) {
                Some(old(self)@[cell.coordinate])
            } else {
                None
            }),
    {
        self.cells.insert(cell.coordinate, cell)
    }

    pub fn get(&self, coordinate: Axial) -> (cell: Option<&Cell>)
        ensures
            cell == (if self@.contains_key(coordinate) {
                Some(&self@[coordinate])
            } else {
                None
            }),
    {
        self.cells.get(coordinate)
    }

    pub fn get_mut(&mut self, coordinate: Axial) -> (cell: Option<&mut Cell>)
        ensures
            match cell {
                Some(c) => {
                    &&& old(self)@.contains_key(coordinate)
                    &&& *c == old(self)@[coordinate]
                    &&& final(self)@ == old(self)@.insert(coordinate, *final(c))
                },
                None => !old(self)@.contains_key(coordinate) && final(self)@ == old(self)@,
            },
            final(self).overrides() == old(self).overrides(),
    {
        self.cells.get_mut(coordinate)
    }

    pub fn contains(&self, coordinate: Axial) -> (found: bool)
        ensures
            found == self@.contains_key(coordinate),
    {
        self.cells.contains(coordinate)
    }

    /// The cells in ascending order of their coordinates.
    pub fn cells(&self) -> (listed: Vec<&Cell>)
        ensures
            listed@.len() == ordered(self@.dom()).len(),
            forall|i: int|
                0 <= i < listed@.len() ==> *(#[trigger] listed@[i]) == self@[ordered(
                    self@.dom(),
                )[i]],
    {
        let keys = self.cells.keys();
        let mut listed: Vec<&Cell> = Vec::new();
        let mut i: usize = 0;
        while i < keys.len()
            invariant
                i <= keys.len(),
                listed@.len() == i,
                keys@ == ordered(self@.dom()),
                keys@.to_set() == self@.dom(),
                forall|j: int| 0 <= j < i ==> *(#[trigger] listed@[j]) == self@[keys@[j]],
            decreases keys.len() - i,
        {
            assert(keys@.to_set().contains(keys@[i as int]));
            match self.cells.get(keys[i]) {
                Some(cell) => {
                    listed.push(cell);
                },
                None => {
                    assert(false);
                },
            }
            i += 1;
        }
        listed
    }

    /// The coordinates of the map in ascending order.
    pub fn coordinates(&self) -> (listed: Vec<Axial>)
        ensures
            ascending(listed@),
            listed@.to_set() == self@.dom(),
            listed@ == ordered(self@.dom()),
    {
        self.cells.keys()
    }

    /// Overrides the limits of the edge between two adjacent cells of the map.
    pub fn set_edge_limits(&mut self, first: Axial, second: Axial, limits: EdgeLimits) -> (done:
        bool)
        ensures
            done == (adjacent(first, second) && old(self)@.contains_key(first)
                && old(self)@.contains_key(second)),
            final(self)@ == old(self)@,
            final(self).overrides() == (if done {
                old(self).overrides().insert(edge_of(first, second), limits)
            } else {
                old(self).overrides()
            }),
    {
        let edge = match HexEdge::new(first, second) {
            Some(edge) => edge,
            None => {
                return false;
            },
        };
        if !self.contains(first) || !self.contains(second) {
            return false;
        }
        self.edge_limits.insert(edge, limits);
        true
    }

    /// The limits of the edge between two adjacent cells of the map.
    pub fn edge_limits(&self, first: Axial, second: Axial, config: &LogisticsConfig) -> (limits:
        Option<EdgeLimits>)
        ensures
            limits == (if adjacent(first, second) && self@.contains_key(first)
                && self@.contains_key(second) {
                Some(self.limits_of(edge_of(first, second), *config))
            } else {
                None
            }),
    {
        let edge = match HexEdge::new(first, second) {
            Some(edge) => edge,
            None => {
                return None;
            },
        };
        if !self.contains(first) || !self.contains(second) {
            return None;
        }
        match self.edge_limits.get(edge) {
            Some(limits) => Some(*limits),
            None => Some(config.default_edge_limits()),
        }
    }

    /// The force on the whole map.
    pub fn total_force(&self) -> (total: Strength)
        requires
            map_force(self@) <= u64::MAX,
        ensures
            total == map_force(self@),
    {
        let cells = self.cells();
        let ghost keys = ordered(self@.dom());
        let mut total: u64 = 0;
        let mut i: usize = 0;
        assert(keys.take(0) =~= Seq::<Axial>::empty());
        while i < cells.len()
            invariant
                i <= cells.len(),
                cells@.len() == keys.len(),
                keys == ordered(self@.dom()),
                forall|j: int| 0 <= j < cells@.len() ==> *(#[trigger] cells@[j]) == self@[keys[j]],
                total == force_sum(self@, keys.take(i as int)),
                force_sum(self@, keys) <= u64::MAX,
            decreases cells.len() - i,
        {
            proof {
                assert(keys.take(i + 1).drop_last() =~= keys.take(i as int));
                lemma_force_sum_prefix(self@, keys, i + 1);
            }
            total = total + cells[i].force();
            i += 1;
        }
        assert(keys.take(i as int) =~= keys);
        total
    }
}

impl Clone for HexMap {
    fn clone(&self) -> (copy: HexMap)
        ensures
            copy@ == self@,
            copy.overrides() == self.overrides(),
    {
        HexMap { cells: self.cells.clone(), edge_limits: self.edge_limits.clone() }
    }
}

impl Default for HexMap {
    fn default() -> (map: HexMap)
        ensures
            map@ == Map::<Axial, Cell>::empty(),
            map.overrides() == Map::<HexEdge, EdgeLimits>::empty(),
    {
        HexMap::new()
    }
}

/// The first cells of a list hold at most what all of them hold.
pub proof fn lemma_force_sum_prefix(cells: Map<Axial, Cell>, listed: Seq<Axial>, n: int)
    requires
        0 <= n <= listed.len(),
    ensures
        0 <= force_sum(cells, listed.take(n)) <= force_sum(cells, listed),
    decreases listed.len(),
{
    if n == listed.len() {
        assert(listed.take(n) =~= listed);
        if n > 0 {
            lemma_force_sum_prefix(cells, listed.drop_last(), n - 1);
            assert(listed.drop_last().take(n - 1) =~= listed.drop_last());
        }
    } else {
        lemma_force_sum_prefix(cells, listed.drop_last(), n);
        assert(listed.drop_last().take(n) =~= listed.take(n));
    }
}

/// An override is undirected: what was set in one direction is read in both.
pub proof fn law_edge_limits_are_undirected(
    map: HexMap,
    first: Axial,
    second: Axial,
    config: LogisticsConfig,
)
    ensures
        map.limits_of(edge_of(first, second), config) == map.limits_of(
            edge_of(second, first),
            config,
        ),
{
}

} // verus!
