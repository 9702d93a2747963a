//! The outlines and marks that are drawn over the map.
use vstd::prelude::*;
use crate::axials::{ascending, ordered, AxialMap, AxialSet};
use crate::coord::{axial_lt, Axial};
use crate::map::TerrainKind;
use crate::projection::{chunk_key, chunk_of, CellView};

verus! {

/// A side of a cell towards where nobody lives.
#[derive(Clone, Copy, Debug, Eq, PartialEq, Structural)]
pub struct PopulationBoundaryEdge {
    pub coordinate: Axial,
    pub elevation: i16,
    pub direction: u8,
}

/// Whether somebody lives on a cell.
pub open spec fn is_populated(cell: CellView) -> bool {
    cell.terrain != TerrainKind::Water && cell.civilians > 0
}

pub fn has_population(cell: &CellView) -> (populated: bool)
    ensures
        populated == is_populated(*cell),
{
    cell.terrain != TerrainKind::Water && cell.civilians > 0
}

/// Whether somebody lives at a place.
pub open spec fn lives_at(cells: Map<Axial, CellView>, c: Axial) -> bool {
    cells.contains_key(c) && is_populated(cells[c])
}

/// The sides of a populated cell in some first directions.
pub open spec fn sides(cells: Map<Axial, CellView>, c: Axial, directions: int) -> Seq<
    PopulationBoundaryEdge,
>
    decreases directions,
{
    if directions <= 0 {
        seq![]
    } else if lives_at(cells, c.step(directions - 1)) {
        sides(cells, c, directions - 1)
    } else {
        sides(cells, c, directions - 1).push(
            PopulationBoundaryEdge {
                coordinate: c,
                elevation: cells[c].elevation,
                direction: (directions - 1) as u8,
            },
        )
    }
}

/// The sides of a place towards where nobody lives.
pub open spec fn sides_of(cells: Map<Axial, CellView>, c: Axial) -> Seq<PopulationBoundaryEdge> {
    if lives_at(cells, c) {
        sides(cells, c, 6)
    } else {
        seq![]
    }
}

/// The sides of places, one after the other.
pub open spec fn boundary(cells: Map<Axial, CellView>, places: Seq<Axial>) -> Seq<
    PopulationBoundaryEdge,
>
    decreases places.len(),
{
    if places.len() == 0 {
        seq![]
    } else {
        boundary(cells, places.drop_last()) + sides_of(cells, places.last())
    }
}

/// Whether the neighbours of all populated places have coordinates.
pub open spec fn is_inside(cells: Map<Axial, CellView>, places: Seq<Axial>) -> bool {
    forall|i: int|
        0 <= i < places.len() && lives_at(cells, #[trigger] places[i]) ==> places[i].interior()
}

/// Appends the sides of a place; how many they are.
fn append_sides(
    edges: &mut Vec<PopulationBoundaryEdge>,
    cells: &AxialMap<CellView>,
    c: Axial,
)
    requires
        lives_at(cells@, c) ==> c.interior(),
    ensures
        final(edges)@ == old(edges)@ + sides_of(cells@, c),
{
    let ghost before = edges@;
    let cell: CellView = match cells.get(c) {
        Some(cell) => {
            if !has_population(cell) {
                assert(edges@ =~= before + sides_of(cells@, c));
                return;
            }
            *cell
        },
        None => {
            assert(edges@ =~= before + sides_of(cells@, c));
            return;
        },
    };
    let neighbors = c.neighbors();
    let mut direction: u8 = 0;
    assert(before + sides(cells@, c, 0) =~= before);
    while direction < 6
        invariant
            direction <= 6,
            neighbors@ == Seq::new(6, |i: int| c.step(i)),
            cells@.contains_key(c),
            cell == cells@[c],
            edges@ == before + sides(cells@, c, direction as int),
        decreases 6 - direction,
    {
        let neighbor = neighbors[direction as usize];
        assert(neighbor == c.step(direction as int));
        let lived: bool = match cells.get(neighbor) {
            Some(other) => has_population(other),
            None => false,
        };
        if !lived {
            edges.push(
                PopulationBoundaryEdge { coordinate: c, elevation: cell.elevation, direction },
            );
        }
        assert(edges@ =~= before + sides(cells@, c, direction + 1));
        direction += 1;
    }
}

/// The sides of populated places towards where nobody lives, sorted, each once;
/// nothing at all where they are too many.
pub fn collect_population_boundary_edges(
    cells: &AxialMap<CellView>,
    coordinates: &Vec<Axial>,
    edge_cap: usize,
) -> (edges: Option<Vec<PopulationBoundaryEdge>>)
    requires
        is_inside(cells@, coordinates@),
    ensures
        match edges {
            Some(list) => boundary(cells@, coordinates@).len() <= edge_cap && list@ == boundary(
                cells@,
                ordered(coordinates@.to_set()),
            ),
            None => boundary(cells@, coordinates@).len() > edge_cap,
        },
{
    let mut count: usize = 0;
    let mut i: usize = 0;
    assert(coordinates@.take(0) =~= Seq::<Axial>::empty());
    while i < coordinates.len()
        invariant
            i <= coordinates@.len(),
            is_inside(cells@, coordinates@),
            count == boundary(cells@, coordinates@.take(i as int)).len(),
            count <= edge_cap,
        decreases coordinates.len() - i,
    {
        let c = coordinates[i];
        let mut here: Vec<PopulationBoundaryEdge> = Vec::new();
        append_sides(&mut here, cells, c);
        proof {
            assert(coordinates@.take(i + 1).drop_last() =~= coordinates@.take(i as int));
            assert(here@ =~= sides_of(cells@, c));
        }
        if here.len() > edge_cap - count {
            proof {
                lemma_boundary_grows(cells@, coordinates@, i + 1);
            }
            return None;
        }
        count += here.len();
        i += 1;
    }
    assert(coordinates@.take(i as int) =~= coordinates@);
    let set = AxialSet::from_slice(coordinates.as_slice());
    let listed = set.to_vec();
    let mut edges: Vec<PopulationBoundaryEdge> = Vec::new();
    let mut j: usize = 0;
    proof {
        assert(listed@.take(0) =~= Seq::<Axial>::empty());
        assert forall|k: int| 0 <= k < listed@.len() && lives_at(cells@, #[trigger] listed@[k])
            implies listed@[k].interior() by {
            assert(listed@.to_set().contains(listed@[k]));
            assert(coordinates@.to_set().contains(listed@[k]));
            let m = choose|m: int| 0 <= m < coordinates@.len() && coordinates@[m] == listed@[k];
            assert(lives_at(cells@, coordinates@[m]));
        }
    }
    while j < listed.len()
        invariant
            j <= listed@.len(),
            is_inside(cells@, listed@),
            edges@ == boundary(cells@, listed@.take(j as int)),
        decreases listed.len() - j,
    {
        assert(listed@.take(j + 1).drop_last() =~= listed@.take(j as int));
        append_sides(&mut edges, cells, listed[j]);
        j += 1;
    }
    assert(listed@.take(j as int) =~= listed@);
    Some(edges)
}

proof fn lemma_boundary_grows(cells: Map<Axial, CellView>, places: Seq<Axial>, i: int)
    requires
        0 <= i <= places.len(),
    ensures
        boundary(cells, places.take(i)).len() <= boundary(cells, places).len(),
    decreases places.len() - i,
{
    if i < places.len() {
        assert(places.take(i + 1).drop_last() =~= places.take(i));
        lemma_boundary_grows(cells, places, i + 1);
    } else {
        assert(places.take(i) =~= places);
    }
}

/// The order of sides: by place, then by direction.
pub open spec fn side_lt(a: PopulationBoundaryEdge, b: PopulationBoundaryEdge) -> bool {
    axial_lt(a.coordinate, b.coordinate) || (a.coordinate == b.coordinate && a.direction
        < b.direction)
}

pub open spec fn sides_ascend(edges: Seq<PopulationBoundaryEdge>) -> bool {
    forall|i: int, j: int|
        0 <= i < j < edges.len() ==> side_lt(#[trigger] edges[i], #[trigger] edges[j])
}

proof fn lemma_sides(cells: Map<Axial, CellView>, c: Axial, directions: int)
    requires
        0 <= directions <= 6,
    ensures
        sides_ascend(sides(cells, c, directions)),
        forall|i: int|
            0 <= i < sides(cells, c, directions).len() ==> (#[trigger] sides(
                cells,
                c,
                directions,
            )[i]).coordinate == c && sides(cells, c, directions)[i].direction < directions,
    decreases directions,
{
    if directions > 0 {
        lemma_sides(cells, c, directions - 1);
    }
}

/// The sides of places in order are in order, and none is there twice.
pub proof fn law_boundary_is_sorted(cells: Map<Axial, CellView>, places: Seq<Axial>)
    requires
        ascending(places),
    ensures
        sides_ascend(boundary(cells, places)),
        forall|i: int|
            0 <= i < boundary(cells, places).len() ==> places.contains(
                (#[trigger] boundary(cells, places)[i]).coordinate,
            ),
    decreases places.len(),
{
    if places.len() > 0 {
        let rest = places.drop_last();
        let c = places.last();
        assert forall|i: int, j: int| 0 <= i < j < rest.len() implies axial_lt(
            #[trigger] rest[i],
            #[trigger] rest[j],
        ) by {
            assert(axial_lt(places[i], places[j]));
        }
        law_boundary_is_sorted(cells, rest);
        let first = boundary(cells, rest);
        let second = sides_of(cells, c);
        let all = boundary(cells, places);
        if lives_at(cells, c) {
            lemma_sides(cells, c, 6);
        }
        assert forall|i: int| 0 <= i < all.len() implies places.contains(
            (#[trigger] all[i]).coordinate,
        ) by {
            if i < first.len() {
                assert(all[i] == first[i]);
                let m = choose|m: int| 0 <= m < rest.len() && rest[m] == first[i].coordinate;
                assert(places[m] == first[i].coordinate);
            } else {
                assert(all[i] == second[i - first.len()]);
                assert(places[places.len() - 1] == c);
            }
        }
        assert forall|i: int, j: int| 0 <= i < j < all.len() implies side_lt(
            #[trigger] all[i],
            #[trigger] all[j],
        ) by {
            if j < first.len() {
                assert(side_lt(first[i], first[j]));
            } else if i < first.len() {
                let m = choose|m: int| 0 <= m < rest.len() && rest[m] == first[i].coordinate;
                assert(axial_lt(places[m], places[places.len() - 1]));
                assert(all[j] == second[j - first.len()]);
            } else {
                assert(side_lt(second[i - first.len()], second[j - first.len()]));
            }
        }
    }
}

/// Whether a side of a selection is exposed: the neighbour is not selected.
pub fn perimeter_edge_is_exposed(selection: &AxialSet, neighbor: Axial) -> (exposed: bool)
    ensures
        exposed == !selection@.contains(neighbor),
{
    !selection.contains(neighbor)
}

/// The exposed sides of a place in some first directions.
pub open spec fn exposed(selection: Set<Axial>, c: Axial, directions: int) -> Seq<(Axial, u8)>
    decreases directions,
{
    if directions <= 0 {
        seq![]
    } else if selection.contains(c.step(directions - 1)) {
        exposed(selection, c, directions - 1)
    } else {
        exposed(selection, c, directions - 1).push((c, (directions - 1) as u8))
    }
}

/// The exposed sides of the places of a list that are selected.
pub open spec fn perimeter(selection: Set<Axial>, places: Seq<Axial>) -> Seq<(Axial, u8)>
    decreases places.len(),
{
    if places.len() == 0 {
        seq![]
    } else if selection.contains(places.last()) {
        perimeter(selection, places.drop_last()) + exposed(selection, places.last(), 6)
    } else {
        perimeter(selection, places.drop_last())
    }
}

/// The exposed sides of a selection at the places that can be seen.
pub fn region_perimeter(selection: &AxialSet, visible_cells: &Vec<Axial>) -> (sides: Vec<(Axial, u8)>)
    requires
        forall|i: int|
            0 <= i < visible_cells@.len() && selection@.contains(#[trigger] visible_cells@[i])
                ==> visible_cells@[i].interior(),
    ensures
        sides@ == perimeter(selection@, visible_cells@),
{
    let mut sides: Vec<(Axial, u8)> = Vec::new();
    let mut i: usize = 0;
    assert(visible_cells@.take(0) =~= Seq::<Axial>::empty());
    while i < visible_cells.len()
        invariant
            i <= visible_cells@.len(),
            forall|k: int|
                0 <= k < visible_cells@.len() && selection@.contains(#[trigger] visible_cells@[k])
                    ==> visible_cells@[k].interior(),
            sides@ == perimeter(selection@, visible_cells@.take(i as int)),
        decreases visible_cells.len() - i,
    {
        let c = visible_cells[i];
        assert(visible_cells@.take(i + 1).drop_last() =~= visible_cells@.take(i as int));
        if selection.contains(c) {
            let ghost before = sides@;
            let neighbors = c.neighbors();
            let mut direction: u8 = 0;
            assert(before + exposed(selection@, c, 0) =~= before);
            while direction < 6
                invariant
                    direction <= 6,
                    neighbors@ == Seq::new(6, |k: int| c.step(k)),
                    sides@ == before + exposed(selection@, c, direction as int),
                decreases 6 - direction,
            {
                let neighbor = neighbors[direction as usize];
                assert(neighbor == c.step(direction as int));
                if perimeter_edge_is_exposed(selection, neighbor) {
                    sides.push((c, direction));
                }
                assert(sides@ =~= before + exposed(selection@, c, direction + 1));
                direction += 1;
            }
        }
        i += 1;
    }
    assert(visible_cells@.take(i as int) =~= visible_cells@);
    sides
}

/// How many sides of a selection are exposed.
pub fn perimeter_edge_count(selection: &AxialSet) -> (count: usize)
    requires
        forall|c: Axial| #[trigger] selection@.contains(c) ==> c.interior(),
    ensures
        count == perimeter(selection@, ordered(selection@)).len(),
{
    let listed = selection.to_vec();
    assert forall|i: int| 0 <= i < listed@.len() && selection@.contains(#[trigger] listed@[i])
        implies listed@[i].interior() by {}
    region_perimeter(selection, &listed).len()
}

/// What a brush says of a cell.
#[derive(Clone, Copy, Debug, Eq, PartialEq, Structural)]
pub enum BrushCategory {
    Selectable,
    AlreadySelected,
    RetaskHandle,
    ShapeTarget,
    Blocked,
    Foreign,
    OffMap,
}

/// What is already planned for a cell.
#[derive(Clone, Copy, Debug, Eq, PartialEq, Structural)]
pub struct BrushMarks {
    pub shape_target: bool,
    pub source: bool,
    pub retask_handle: bool,
}

/// Whether soldiers of a player can stand on a cell of theirs.
pub open spec fn is_own_ground(cell: CellView, local_player: u32) -> bool {
    cell.owner == Some(local_player) && cell.terrain != TerrainKind::Water && !cell.blocked
}

pub open spec fn category_of(
    cell: Option<CellView>,
    marks: BrushMarks,
    local_player: u32,
    drawing_shape: bool,
) -> BrushCategory {
    match cell {
        None => BrushCategory::OffMap,
        Some(view) => if view.terrain == TerrainKind::Water || view.blocked {
            BrushCategory::Blocked
        } else if drawing_shape && marks.shape_target {
            BrushCategory::ShapeTarget
        } else if !drawing_shape && marks.source {
            BrushCategory::AlreadySelected
        } else if !drawing_shape && marks.retask_handle {
            BrushCategory::RetaskHandle
        } else if is_own_ground(view, local_player) {
            BrushCategory::Selectable
        } else {
            BrushCategory::Foreign
        },
    }
}

pub fn brush_category(
    cell: Option<CellView>,
    marks: BrushMarks,
    local_player: u32,
    drawing_shape: bool,
) -> (category: BrushCategory)
    ensures
        category == category_of(cell, marks, local_player, drawing_shape),
{
    let view = match cell {
        Some(view) => view,
        None => return BrushCategory::OffMap,
    };
    if view.terrain == TerrainKind::Water || view.blocked {
        return BrushCategory::Blocked;
    }
    let own: bool = view.owner == Some(local_player);
    if drawing_shape {
        if marks.shape_target {
            BrushCategory::ShapeTarget
        } else if own {
            BrushCategory::Selectable
        } else {
            BrushCategory::Foreign
        }
    } else if marks.source {
        BrushCategory::AlreadySelected
    } else if marks.retask_handle {
        BrushCategory::RetaskHandle
    } else if own {
        BrushCategory::Selectable
    } else {
        BrushCategory::Foreign
    }
}

/// Where a push of a front leads.
#[derive(Clone, Copy, Debug, Eq, PartialEq, Structural)]
pub enum EdgeTone {
    Friendly,
    Hostile,
    Neutral,
}

pub open spec fn tone_of(local_player: u32, target_owner: Option<u32>) -> EdgeTone {
    match target_owner {
        None => EdgeTone::Neutral,
        Some(player) => if player == local_player {
            EdgeTone::Friendly
        } else {
            EdgeTone::Hostile
        },
    }
}

pub fn push_front_edge_tone(local_player: u32, target_owner: Option<u32>) -> (tone: EdgeTone)
    ensures
        tone == tone_of(local_player, target_owner),
{
    match target_owner {
        None => EdgeTone::Neutral,
        Some(player) => {
            if player == local_player {
                EdgeTone::Friendly
            } else {
                EdgeTone::Hostile
            }
        },
    }
}

/// Whether one end of an edge is in a chunk that is seen.
pub fn edge_touches_visible_chunk(
    visible_chunks: &AxialSet,
    chunk_size: u32,
    source: Axial,
    target: Axial,
) -> (touches: bool)
    requires
        chunk_size > 0,
    ensures
        touches == (visible_chunks@.contains(chunk_key(source, chunk_size))
            || visible_chunks@.contains(chunk_key(target, chunk_size))),
{
    visible_chunks.contains(chunk_of(source, chunk_size)) || visible_chunks.contains(
        chunk_of(target, chunk_size),
    )
}

} // verus!
