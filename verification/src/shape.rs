//! The shapes of chunks: what their triangles depend on.
use vstd::prelude::*;
use crate::axials::AxialMap;
use crate::coord::Axial;
use crate::map::TerrainKind;
use crate::projection::CellView;

verus! {

/// What a cell adds to the shape of the land.
#[derive(Clone, Copy, Debug, Eq, Hash, PartialEq, Structural)]
pub struct CellShape {
    pub elevation: i16,
    pub water: bool,
}

/// The shape of a place: that of its cell, and those of the six cells beside it.
#[derive(Clone, Copy, Debug, Eq, Hash, PartialEq)]
pub struct PlaceShape {
    pub coordinate: Axial,
    pub cell: Option<CellShape>,
    pub beside: [Option<CellShape>; 6],
}

/// What stands at a place.
pub open spec fn shape_at(cells: Map<Axial, CellView>, c: Axial) -> Option<CellShape> {
    if cells.contains_key(c) {
        Some(
            CellShape {
                elevation: cells[c].elevation,
                water: cells[c].terrain == TerrainKind::Water,
            },
        )
    } else {
        None
    }
}

/// What stands around a place; nothing where there is no cell in the middle.
pub open spec fn shapes_beside(cells: Map<Axial, CellView>, c: Axial) -> Seq<Option<CellShape>> {
    Seq::new(
        6,
        |d: int|
            if cells.contains_key(c) {
                shape_at(cells, c.step(d))
            } else {
                None
            },
    )
}

/// Whether this is the shape of a place.
pub open spec fn is_place_shape(cells: Map<Axial, CellView>, c: Axial, shape: PlaceShape) -> bool {
    &&& shape.coordinate == c
    &&& shape.cell == shape_at(cells, c)
    &&& shape.beside@ == shapes_beside(cells, c)
}

/// Whether these are the shapes of places.
pub open spec fn are_shapes(
    cells: Map<Axial, CellView>,
    places: Seq<Axial>,
    shapes: Seq<PlaceShape>,
) -> bool {
    &&& shapes.len() == places.len()
    &&& forall|i: int|
        0 <= i < places.len() ==> is_place_shape(cells, #[trigger] places[i], shapes[i])
}

/// Whether two lists of shapes say the same.
pub open spec fn same_shapes(a: Seq<PlaceShape>, b: Seq<PlaceShape>) -> bool {
    &&& a.len() == b.len()
    &&& forall|i: int|
        0 <= i < a.len() ==> (#[trigger] a[i]).coordinate == b[i].coordinate && a[i].cell
            == b[i].cell && a[i].beside@ == b[i].beside@
}

fn look(cells: &AxialMap<CellView>, c: Axial) -> (shape: Option<CellShape>)
    ensures
        shape == shape_at(cells@, c),
{
    match cells.get(c) {
        Some(cell) => Some(
            CellShape {
                elevation: cell.elevation,
                water: cell.terrain == TerrainKind::Water,
            },
        ),
        None => None,
    }
}

fn place_shape(cells: &AxialMap<CellView>, c: Axial) -> (shape: PlaceShape)
    requires
        cells@.contains_key(c) ==> c.interior(),
    ensures
        is_place_shape(cells@, c, shape),
{
    let cell = look(cells, c);
    let beside: [Option<CellShape>; 6] = if cell.is_some() {
        let ns = c.neighbors();
        [
            look(cells, ns[0]),
            look(cells, ns[1]),
            look(cells, ns[2]),
            look(cells, ns[3]),
            look(cells, ns[4]),
            look(cells, ns[5]),
        ]
    } else {
        [None, None, None, None, None, None]
    };
    assert(beside@ =~= shapes_beside(cells@, c));
    PlaceShape { coordinate: c, cell, beside }
}

/// The shape of the land at some places: for each the elevation of its cell and
/// whether it is water, and the same of its neighbours.
pub fn chunk_shape(cells: &AxialMap<CellView>, places: &[Axial]) -> (shapes: Vec<PlaceShape>)
    requires
        forall|i: int|
            0 <= i < places@.len() && cells@.contains_key(#[trigger] places@[i])
                ==> places@[i].interior(),
    ensures
        are_shapes(cells@, places@, shapes@),
{
    let mut shapes: Vec<PlaceShape> = Vec::new();
    let mut i: usize = 0;
    while i < places.len()
        invariant
            i <= places@.len(),
            shapes@.len() == i,
            forall|k: int|
                0 <= k < places@.len() && cells@.contains_key(#[trigger] places@[k])
                    ==> places@[k].interior(),
            forall|k: int|
                0 <= k < i ==> is_place_shape(cells@, #[trigger] places@[k], shapes@[k]),
        decreases places@.len() - i,
    {
        shapes.push(place_shape(cells, places[i]));
        i += 1;
    }
    shapes
}

/// The shapes of places say the same exactly when no cell there, and no neighbour
/// of one, differs in its elevation or in being water.
pub proof fn law_shapes_tell_changes(
    before: Map<Axial, CellView>,
    after: Map<Axial, CellView>,
    places: Seq<Axial>,
    a: Seq<PlaceShape>,
    b: Seq<PlaceShape>,
)
    requires
        are_shapes(before, places, a),
        are_shapes(after, places, b),
    ensures
        same_shapes(a, b) <==> forall|i: int|
            0 <= i < places.len() ==> shape_at(before, #[trigger] places[i]) == shape_at(
                after,
                places[i],
            ) && (before.contains_key(places[i]) ==> forall|d: int|
                0 <= d < 6 ==> shape_at(before, #[trigger] places[i].step(d)) == shape_at(
                    after,
                    places[i].step(d),
                )),
{
    if same_shapes(a, b) {
        assert forall|i: int| 0 <= i < places.len() implies shape_at(before, #[trigger] places[i])
            == shape_at(after, places[i]) && (before.contains_key(places[i]) ==> forall|d: int|
            0 <= d < 6 ==> shape_at(before, #[trigger] places[i].step(d)) == shape_at(
                after,
                places[i].step(d),
            )) by {
            let c = places[i];
            assert(a[i].cell == b[i].cell);
            if before.contains_key(c) {
                assert forall|d: int| 0 <= d < 6 implies shape_at(before, #[trigger] c.step(d))
                    == shape_at(after, c.step(d)) by {
                    assert(shapes_beside(before, c)[d] == shapes_beside(after, c)[d]);
                }
            }
        }
    } else {
        let i = choose|i: int|
            0 <= i < a.len() && !((#[trigger] a[i]).coordinate == b[i].coordinate && a[i].cell
                == b[i].cell && a[i].beside@ == b[i].beside@);
        let c = places[i];
        assert(is_place_shape(before, c, a[i]));
        assert(is_place_shape(after, c, b[i]));
        if shape_at(before, c) == shape_at(after, c) && (before.contains_key(c) ==> forall|d: int|
            0 <= d < 6 ==> shape_at(before, #[trigger] c.step(d)) == shape_at(after, c.step(d))) {
            assert(shapes_beside(before, c) =~= shapes_beside(after, c));
        }
    }
}

} // verus!
