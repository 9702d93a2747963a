//! Planning friendly transfers between selected cells.
use vstd::prelude::*;
use crate::axials::{ascending, lemma_ordered_is, ordered, AxialMap, AxialSet};
use crate::combat::least;
use crate::coord::{axial_lt, Axial};
use crate::map::{Cell, HexMap, MovementConfig, PlayerId, Strength};
use crate::order::{key_before, lemma_strictly_sorted_unique, lemma_sum_push, stable_order, sum};
use crate::pathfinding::{is_best_path, route_under, Path, Routing};

verus! {

#[derive(Clone, Debug, Eq, PartialEq)]
pub struct TransferRequest {
    pub owner: PlayerId,
    pub sources: Vec<Axial>,
    pub destinations: Vec<Axial>,
    pub amount: Strength,
}

#[derive(Clone, Copy, Debug, Eq, PartialEq, Structural)]
pub enum PlanError {
    EmptySources,
    EmptyDestinations,
    ZeroAmount,
    OverlappingSelections(Axial),
    UnknownSource(Axial),
    UnknownDestination(Axial),
    SourceNotOwned(Axial),
    DestinationNotOwned(Axial),
}

#[derive(Clone, Debug, Eq, PartialEq)]
pub struct TransferLeg {
    pub source: Axial,
    pub destination: Axial,
    pub amount: Strength,
    pub path: Path,
}

#[derive(Clone, Debug, Eq, PartialEq)]
pub struct TransferPlan {
    pub owner: PlayerId,
    pub requested: Strength,
    pub planned: Strength,
    pub unplanned: Strength,
    pub legs: Vec<TransferLeg>,
    pub unreachable_sources: Vec<Axial>,
    pub unreachable_destinations: Vec<Axial>,
    pub full_destinations: Vec<Axial>,
}

/// The routing problem of a pair of cells, through cells of the owner.
pub open spec fn routing(
    cells: Map<Axial, Cell>,
    movement: MovementConfig,
    owner: PlayerId,
    source: Axial,
    destination: Axial,
) -> Routing {
    Routing {
        cells,
        movement,
        enters: |cell: Cell| cell.owner == Some(owner),
        start: source,
        goal: destination,
    }
}

/// Whether a route leads from a source to a destination.
pub open spec fn reaches(
    cells: Map<Axial, Cell>,
    movement: MovementConfig,
    owner: PlayerId,
    source: Axial,
    destination: Axial,
) -> bool {
    routing(cells, movement, owner, source, destination).best_route() is Some
}

/// The cost of the route of a pair.
pub open spec fn pair_cost(
    cells: Map<Axial, Cell>,
    movement: MovementConfig,
    owner: PlayerId,
    pair: (Axial, Axial),
) -> nat {
    let r = routing(cells, movement, owner, pair.0, pair.1);
    r.route_cost(r.best_route().unwrap())
}

/// The order in which pairs are considered: by route cost, source, destination.
pub open spec fn pair_before(
    cells: Map<Axial, Cell>,
    movement: MovementConfig,
    owner: PlayerId,
    a: (Axial, Axial),
    b: (Axial, Axial),
) -> bool {
    let x = pair_cost(cells, movement, owner, a);
    let y = pair_cost(cells, movement, owner, b);
    x < y || (x == y && (axial_lt(a.0, b.0) || (a.0 == b.0 && axial_lt(a.1, b.1))))
}

/// The pairs that a route connects, in the order in which they are considered.
pub open spec fn is_candidate_list(
    cells: Map<Axial, Cell>,
    movement: MovementConfig,
    owner: PlayerId,
    sources: Set<Axial>,
    destinations: Set<Axial>,
    pairs: Seq<(Axial, Axial)>,
) -> bool {
    &&& forall|i: int, j: int|
        0 <= i < j < pairs.len() ==> pair_before(
            cells,
            movement,
            owner,
            #[trigger] pairs[i],
            #[trigger] pairs[j],
        )
    &&& forall|p: (Axial, Axial)| #[trigger]
        pairs.contains(p) <==> sources.contains(p.0) && destinations.contains(p.1) && reaches(
            cells,
            movement,
            owner,
            p.0,
            p.1,
        )
}

/// A part of a plan: source, destination and amount.
pub type Share = (Axial, Axial, int);

/// The amounts of the shares that satisfy a condition.
pub open spec fn amounts_where(shares: Seq<Share>, wanted: spec_fn(Share) -> bool) -> Seq<int> {
    Seq::new(
        shares.len(),
        |i: int|
            if wanted(shares[i]) {
                shares[i].2
            } else {
                0
            },
    )
}

pub open spec fn leaves(source: Axial) -> spec_fn(Share) -> bool {
    |s: Share| s.0 == source
}

pub open spec fn arrives(destination: Axial) -> spec_fn(Share) -> bool {
    |s: Share| s.1 == destination
}

pub open spec fn any_share() -> spec_fn(Share) -> bool {
    |s: Share| true
}

/// What the shares take from a source.
pub open spec fn taken(shares: Seq<Share>, source: Axial) -> int {
    sum(amounts_where(shares, leaves(source)))
}

/// What the shares bring to a destination.
pub open spec fn brought(shares: Seq<Share>, destination: Axial) -> int {
    sum(amounts_where(shares, arrives(destination)))
}

/// What the shares move altogether.
pub open spec fn moved(shares: Seq<Share>) -> int {
    sum(amounts_where(shares, any_share()))
}

/// The military capacity of a cell that is not taken up.
pub open spec fn free_capacity(cell: Cell) -> int {
    if cell.military_capacity >= cell.forces.infantry {
        cell.military_capacity - cell.forces.infantry
    } else {
        0
    }
}

/// The shares of the pairs: each pair gets as much as is left of the request,
/// of its source and of the room at its destination; pairs that get nothing
/// are left out.
pub open spec fn allot(
    cells: Map<Axial, Cell>,
    amount: int,
    pairs: Seq<(Axial, Axial)>,
) -> Seq<Share>
    decreases pairs.len(),
{
    if pairs.len() == 0 {
        Seq::empty()
    } else {
        let earlier = allot(cells, amount, pairs.drop_last());
        let (s, d) = pairs.last();
        let x = least(
            least(
                amount - moved(earlier),
                cells[s].forces.infantry - taken(earlier, s),
            ),
            free_capacity(cells[d]) - brought(earlier, d),
        );
        if x > 0 {
            earlier.push((s, d, x))
        } else {
            earlier
        }
    }
}

/// Whether a leg carries a share along the best route of its pair.
pub open spec fn is_leg(
    cells: Map<Axial, Cell>,
    movement: MovementConfig,
    owner: PlayerId,
    share: Share,
    leg: TransferLeg,
) -> bool {
    &&& leg.source == share.0
    &&& leg.destination == share.1
    &&& leg.amount == share.2
    &&& is_best_path(routing(cells, movement, owner, share.0, share.1), Some(leg.path))
}

/// Whether a plan is the one that the rules prescribe.
pub open spec fn is_plan(
    cells: Map<Axial, Cell>,
    movement: MovementConfig,
    request: TransferRequest,
    pairs: Seq<(Axial, Axial)>,
    plan: TransferPlan,
) -> bool {
    let sources = request.sources@.to_set();
    let destinations = request.destinations@.to_set();
    let shares = allot(cells, request.amount as int, pairs);
    &&& is_candidate_list(cells, movement, request.owner, sources, destinations, pairs)
    &&& plan.owner == request.owner
    &&& plan.requested == request.amount
    &&& plan.planned == moved(shares)
    &&& plan.unplanned == request.amount - moved(shares)
    &&& plan.legs@.len() == shares.len()
    &&& forall|i: int|
        0 <= i < shares.len() ==> is_leg(
            cells,
            movement,
            request.owner,
            #[trigger] shares[i],
            plan.legs@[i],
        )
    &&& plan.unreachable_sources@ == ordered(
        sources.filter(
            |s: Axial|
                forall|d: Axial|
                    destinations.contains(d) ==> !#[trigger] reaches(
                        cells,
                        movement,
                        request.owner,
                        s,
                        d,
                    ),
        ),
    )
    &&& plan.unreachable_destinations@ == ordered(
        destinations.filter(
            |d: Axial|
                forall|s: Axial|
                    sources.contains(s) ==> !#[trigger] reaches(
                        cells,
                        movement,
                        request.owner,
                        s,
                        d,
                    ),
        ),
    )
    &&& plan.full_destinations@ == ordered(
        destinations.filter(|d: Axial| free_capacity(cells[d]) == 0),
    )
}

/// Whether a plan follows from the candidate list.
pub open spec fn plans(
    cells: Map<Axial, Cell>,
    movement: MovementConfig,
    request: TransferRequest,
    plan: TransferPlan,
) -> bool {
    exists|pairs: Seq<(Axial, Axial)>| #[trigger]
        is_plan(cells, movement, request, pairs, plan)
}

/// What is wrong with a selected cell, if anything.
pub open spec fn selection_fault(
    cells: Map<Axial, Cell>,
    owner: PlayerId,
    c: Axial,
) -> Option<bool> {
    if !cells.contains_key(c) {
        Some(true)
    } else if cells[c].owner != Some(owner) {
        Some(false)
    } else {
        None
    }
}

/// Whether a coordinate is the least of a set that satisfies a condition.
pub open spec fn least_where(set: Set<Axial>, wanted: spec_fn(Axial) -> bool, c: Axial) -> bool {
    &&& set.contains(c)
    &&& wanted(c)
    &&& forall|d: Axial| #[trigger] set.contains(d) && axial_lt(d, c) ==> !wanted(d)
}

/// The first reason to refuse a request, if there is one.
pub open spec fn refuses(
    cells: Map<Axial, Cell>,
    request: TransferRequest,
    error: PlanError,
) -> bool {
    let sources = request.sources@.to_set();
    let destinations = request.destinations@.to_set();
    let bad = |c: Axial| selection_fault(cells, request.owner, c) is Some;
    let shared = |c: Axial| destinations.contains(c);
    let usable = request.sources@.len() > 0 && request.destinations@.len() > 0 && request.amount > 0;
    let apart = usable && forall|c: Axial| #[trigger]
        sources.contains(c) ==> !destinations.contains(c);
    let owned = apart && forall|c: Axial| #[trigger] sources.contains(c) ==> !bad(c);
    match error {
        PlanError::EmptySources => request.sources@.len() == 0,
        PlanError::EmptyDestinations => request.sources@.len() > 0 && request.destinations@.len()
            == 0,
        PlanError::ZeroAmount => request.sources@.len() > 0 && request.destinations@.len() > 0
            && request.amount == 0,
        PlanError::OverlappingSelections(c) => usable && least_where(sources, shared, c),
        PlanError::UnknownSource(c) => apart && least_where(sources, bad, c)
            && !cells.contains_key(c),
        PlanError::SourceNotOwned(c) => apart && least_where(sources, bad, c)
            && cells.contains_key(c),
        PlanError::UnknownDestination(c) => owned && least_where(destinations, bad, c)
            && !cells.contains_key(c),
        PlanError::DestinationNotOwned(c) => owned && least_where(destinations, bad, c)
            && cells.contains_key(c),
    }
}

/// Whether a request can be planned at all.
pub open spec fn is_sound(cells: Map<Axial, Cell>, request: TransferRequest) -> bool {
    &&& request.sources@.len() > 0
    &&& request.destinations@.len() > 0
    &&& request.amount > 0
    &&& forall|c: Axial| #[trigger]
        request.sources@.to_set().contains(c) ==> !request.destinations@.to_set().contains(c)
            && selection_fault(cells, request.owner, c) is None
    &&& forall|c: Axial| #[trigger]
        request.destinations@.to_set().contains(c) ==> selection_fault(
            cells,
            request.owner,
            c,
        ) is None
}

/// The first selected cell that is missing or not owned.
fn find_selection_fault(map: &HexMap, owner: PlayerId, selected: &Vec<Axial>) -> (found: Option<
    (Axial, bool),
>)
    requires
        ascending(selected@),
    ensures
        match found {
            Some((c, missing)) => {
                &&& least_where(
                    selected@.to_set(),
                    |c: Axial| selection_fault(map@, owner, c) is Some,
                    c,
                )
                &&& missing == !map@.contains_key(c)
            },
            None => forall|c: Axial| #[trigger]
                selected@.to_set().contains(c) ==> selection_fault(map@, owner, c) is None,
        },
{
    let ghost bad = |c: Axial| selection_fault(map@, owner, c) is Some;
    let mut i: usize = 0;
    while i < selected.len()
        invariant
            i <= selected.len(),
            ascending(selected@),
            bad == (|c: Axial| selection_fault(map@, owner, c) is Some),
            forall|j: int|
                0 <= j < i ==> selection_fault(map@, owner, #[trigger] selected@[j]) is None,
        decreases selected.len() - i,
    {
        let c = selected[i];
        let fault: Option<bool> = match map.get(c) {
            Some(cell) => match cell.owner {
                Some(o) => if o == owner {
                    None
                } else {
                    Some(false)
                },
                None => Some(false),
            },
            None => Some(true),
        };
        match fault {
            Some(missing) => {
                proof {
                    assert(selected@.contains(c));
                    assert forall|d: Axial| #[trigger]
                        selected@.to_set().contains(d) && axial_lt(d, c) implies !bad(d) by {
                        assert(selected@.contains(d));
                        let j = choose|j: int| 0 <= j < selected@.len() && selected@[j] == d;
                        if j > i {
                            assert(axial_lt(selected@[i as int], selected@[j]));
                        }
                        assert(selection_fault(map@, owner, selected@[j]) is None);
                    }
                    assert(least_where(selected@.to_set(), bad, c));
                }
                return Some((c, missing));
            },
            None => {},
        }
        i += 1;
    }
    proof {
        assert forall|c: Axial| #[trigger]
            selected@.to_set().contains(c) implies selection_fault(map@, owner, c) is None by {
            assert(selected@.contains(c));
            let j = choose|j: int| 0 <= j < selected@.len() && selected@[j] == c;
            assert(selection_fault(map@, owner, selected@[j]) is None);
        }
    }
    None
}

/// A pair with its route.
struct Candidate {
    source: Axial,
    destination: Axial,
    path: Path,
}

fn copy_path(path: &Path) -> (copy: Path)
    ensures
        copy.cells@ == path.cells@,
        copy.total_cost == path.total_cost,
{
    let mut cells: Vec<Axial> = Vec::new();
    let mut i: usize = 0;
    while i < path.cells.len()
        invariant
            i <= path.cells.len(),
            cells@ == path.cells@.take(i as int),
        decreases path.cells.len() - i,
    {
        cells.push(path.cells[i]);
        assert(path.cells@.take(i + 1) =~= path.cells@.take(i as int).push(path.cells@[i as int]));
        i += 1;
    }
    assert(path.cells@.take(i as int) =~= path.cells@);
    Path { cells, total_cost: path.total_cost }
}

/// Whether the neighbours of all cells of a player are representable.
pub open spec fn owned_is_interior(cells: Map<Axial, Cell>, owner: PlayerId) -> bool {
    forall|c: Axial| #[trigger]
        cells.contains_key(c) && cells[c].owner == Some(owner) ==> c.interior()
}

/// Routes a pair through the owner's cells.
fn route_pair(
    map: &HexMap,
    movement: &MovementConfig,
    owner: PlayerId,
    source: Axial,
    destination: Axial,
) -> (path: Option<Path>)
    requires
        owned_is_interior(map@, owner),
    ensures
        is_best_path(routing(map@, *movement, owner, source, destination), path),
{
    let policy = |cell: &Cell| -> (mine: bool)
        ensures
            mine == (cell.owner == Some(owner)),
        {
            match cell.owner {
                Some(o) => o == owner,
                None => false,
            }
        };
    route_under(
        map,
        source,
        destination,
        movement,
        &policy,
        Ghost(|cell: Cell| cell.owner == Some(owner)),
    )
}

spec fn pair_of(candidate: Candidate) -> (Axial, Axial) {
    (candidate.source, candidate.destination)
}

spec fn pairs_of(candidates: Seq<Candidate>) -> Seq<(Axial, Axial)> {
    candidates.map_values(|c: Candidate| pair_of(c))
}

spec fn lex_lt(a: (Axial, Axial), b: (Axial, Axial)) -> bool {
    axial_lt(a.0, b.0) || (a.0 == b.0 && axial_lt(a.1, b.1))
}

spec fn lex_ascending(pairs: Seq<(Axial, Axial)>) -> bool {
    forall|i: int, j: int| 0 <= i < j < pairs.len() ==> lex_lt(#[trigger] pairs[i], #[trigger] pairs[j])
}

/// Whether every candidate carries the best route of its pair.
spec fn well_routed(
    cells: Map<Axial, Cell>,
    movement: MovementConfig,
    owner: PlayerId,
    candidates: Seq<Candidate>,
) -> bool {
    forall|k: int|
        0 <= k < candidates.len() ==> is_best_path(
            routing(
                cells,
                movement,
                owner,
                (#[trigger] candidates[k]).source,
                candidates[k].destination,
            ),
            Some(candidates[k].path),
        )
}

/// The pairs of one source that a route connects.
fn gather_row(
    map: &HexMap,
    movement: &MovementConfig,
    owner: PlayerId,
    source: Axial,
    destinations: &Vec<Axial>,
) -> (row: Vec<Candidate>)
    requires
        owned_is_interior(map@, owner),
        ascending(destinations@),
    ensures
        well_routed(map@, *movement, owner, row@),
        lex_ascending(pairs_of(row@)),
        forall|p: (Axial, Axial)| #[trigger]
            pairs_of(row@).contains(p) <==> p.0 == source && destinations@.contains(p.1)
                && reaches(map@, *movement, owner, source, p.1),
{
    let mut row: Vec<Candidate> = Vec::new();
    let mut j: usize = 0;
    while j < destinations.len()
        invariant
            j <= destinations.len(),
            owned_is_interior(map@, owner),
            ascending(destinations@),
            well_routed(map@, *movement, owner, row@),
            lex_ascending(pairs_of(row@)),
            forall|k: int|
                0 <= k < row@.len() ==> (#[trigger] pairs_of(row@)[k]).0 == source && exists|b: int|
                    0 <= b < j && #[trigger] destinations@[b] == pairs_of(row@)[k].1,
            forall|p: (Axial, Axial)| #[trigger]
                pairs_of(row@).contains(p) <==> p.0 == source && destinations@.take(
                    j as int,
                ).contains(p.1) && reaches(map@, *movement, owner, source, p.1),
        decreases destinations.len() - j,
    {
        let destination = destinations[j];
        let ghost was = row@;
        let ghost pairs_was = pairs_of(row@);
        let ghost then = destinations@.take(j as int);
        let ghost now = destinations@.take(j + 1);
        assert(now =~= then.push(destination));
        match route_pair(map, movement, owner, source, destination) {
            Some(path) => {
                row.push(Candidate { source, destination, path });
                proof {
                    assert(pairs_of(row@) =~= pairs_was.push((source, destination)));
                    assert forall|k: int| 0 <= k < was.len() implies lex_lt(
                        #[trigger] pairs_was[k],
                        (source, destination),
                    ) by {
                        let b = choose|b: int|
                            0 <= b < j && #[trigger] destinations@[b] == pairs_was[k].1;
                        assert(axial_lt(destinations@[b], destinations@[j as int]));
                    }
                    assert(pairs_of(row@)[was.len() as int] == (source, destination));
                    assert(destinations@[j as int] == destination);
                    assert forall|k: int| 0 <= k < row@.len() implies (#[trigger] pairs_of(
                        row@,
                    )[k]).0 == source && exists|b: int|
                        0 <= b < j + 1 && #[trigger] destinations@[b] == pairs_of(row@)[k].1 by {
                        if k < was.len() {
                            assert(pairs_of(row@)[k] == pairs_was[k]);
                            let b = choose|b: int|
                                0 <= b < j && #[trigger] destinations@[b] == pairs_was[k].1;
                            assert(destinations@[b] == pairs_of(row@)[k].1);
                        }
                    }
                }
            },
            None => {
                assert forall|k: int| 0 <= k < row@.len() implies (#[trigger] pairs_of(row@)[k]).0
                    == source && exists|b: int|
                    0 <= b < j + 1 && #[trigger] destinations@[b] == pairs_of(row@)[k].1 by {
                    let b = choose|b: int|
                        0 <= b < j && #[trigger] destinations@[b] == pairs_of(row@)[k].1;
                    assert(destinations@[b] == pairs_of(row@)[k].1);
                }
            },
        }
        proof {
            assert forall|p: (Axial, Axial)| #[trigger]
                pairs_of(row@).contains(p) <==> p.0 == source && now.contains(p.1) && reaches(
                    map@,
                    *movement,
                    owner,
                    source,
                    p.1,
                ) by {
                crate::axials::lemma_contains_push(then, destination, p.1);
                if reaches(map@, *movement, owner, source, destination) {
                    crate::axials::lemma_contains_push(pairs_was, (source, destination), p);
                    assert(pairs_of(row@) == pairs_was.push((source, destination)));
                } else {
                    assert(row@ == was);
                }
                assert(pairs_was.contains(p) <==> p.0 == source && then.contains(p.1) && reaches(
                    map@,
                    *movement,
                    owner,
                    source,
                    p.1,
                ));
            }
        }
        j += 1;
    }
    assert(destinations@.take(j as int) =~= destinations@);
    row
}

/// All pairs that a route connects, by source, then by destination.
fn gather(
    map: &HexMap,
    movement: &MovementConfig,
    owner: PlayerId,
    sources: &Vec<Axial>,
    destinations: &Vec<Axial>,
) -> (candidates: Vec<Candidate>)
    requires
        owned_is_interior(map@, owner),
        ascending(sources@),
        ascending(destinations@),
    ensures
        well_routed(map@, *movement, owner, candidates@),
        lex_ascending(pairs_of(candidates@)),
        forall|p: (Axial, Axial)| #[trigger]
            pairs_of(candidates@).contains(p) <==> sources@.contains(p.0) && destinations@.contains(
                p.1,
            ) && reaches(map@, *movement, owner, p.0, p.1),
{
    let mut candidates: Vec<Candidate> = Vec::new();
    let mut i: usize = 0;
    while i < sources.len()
        invariant
            i <= sources.len(),
            owned_is_interior(map@, owner),
            ascending(sources@),
            ascending(destinations@),
            well_routed(map@, *movement, owner, candidates@),
            lex_ascending(pairs_of(candidates@)),
            forall|p: (Axial, Axial)| #[trigger]
                pairs_of(candidates@).contains(p) <==> sources@.take(i as int).contains(p.0)
                    && destinations@.contains(p.1) && reaches(map@, *movement, owner, p.0, p.1),
        decreases sources.len() - i,
    {
        let source = sources[i];
        let mut row = gather_row(map, movement, owner, source, destinations);
        let ghost was = candidates@;
        let ghost added = row@;
        candidates.append(&mut row);
        proof {
            let then = sources@.take(i as int);
            assert(sources@.take(i + 1) =~= then.push(source));
            let a = pairs_of(was);
            let b = pairs_of(added);
            let c = pairs_of(candidates@);
            assert(c =~= a + b);
            assert forall|x: int, y: int| 0 <= x < y < c.len() implies lex_lt(
                #[trigger] c[x],
                #[trigger] c[y],
            ) by {
                if y < a.len() {
                    assert(lex_lt(a[x], a[y]));
                } else if x >= a.len() {
                    assert(lex_lt(b[x - a.len()], b[y - a.len()]));
                } else {
                    assert(a.contains(a[x]));
                    assert(b.contains(b[y - a.len()]));
                    let k = choose|k: int| 0 <= k < then.len() && then[k] == a[x].0;
                    assert(axial_lt(sources@[k], sources@[i as int]));
                }
            }
            assert forall|k: int| 0 <= k < candidates@.len() implies is_best_path(
                routing(
                    map@,
                    *movement,
                    owner,
                    (#[trigger] candidates@[k]).source,
                    candidates@[k].destination,
                ),
                Some(candidates@[k].path),
            ) by {
                if k < was.len() {
                    assert(candidates@[k] == was[k]);
                } else {
                    assert(candidates@[k] == added[k - was.len()]);
                }
            }
            assert forall|p: (Axial, Axial)| #[trigger]
                c.contains(p) <==> sources@.take(i + 1).contains(p.0) && destinations@.contains(p.1)
                    && reaches(map@, *movement, owner, p.0, p.1) by {
                crate::axials::lemma_contains_push(then, source, p.0);
                if a.contains(p) {
                    let k = choose|k: int| 0 <= k < a.len() && a[k] == p;
                    assert(c[k] == p);
                }
                if b.contains(p) {
                    let k = choose|k: int| 0 <= k < b.len() && b[k] == p;
                    assert(c[a.len() + k] == p);
                }
                if c.contains(p) {
                    let k = choose|k: int| 0 <= k < c.len() && c[k] == p;
                    if k < a.len() {
                        assert(a[k] == p);
                    } else {
                        assert(b[k - a.len()] == p);
                    }
                }
            }
        }
        i += 1;
    }
    assert(sources@.take(i as int) =~= sources@);
    candidates
}

/// The candidates in the order in which they are considered.
fn rank(
    candidates: &Vec<Candidate>,
    Ghost(cells): Ghost<Map<Axial, Cell>>,
    Ghost(movement): Ghost<MovementConfig>,
    Ghost(owner): Ghost<PlayerId>,
) -> (order: Vec<usize>)
    requires
        well_routed(cells, movement, owner, candidates@),
        lex_ascending(pairs_of(candidates@)),
    ensures
        order@.len() == candidates@.len(),
        forall|a: int| 0 <= a < order@.len() ==> (#[trigger] order@[a]) < candidates@.len(),
        forall|a: int, b: int|
            0 <= a < b < order@.len() ==> pair_before(
                cells,
                movement,
                owner,
                pair_of(candidates@[#[trigger] order@[a] as int]),
                pair_of(candidates@[#[trigger] order@[b] as int]),
            ),
        forall|i: usize| i < candidates@.len() ==> #[trigger] order@.contains(i),
{
    let mut keys: Vec<(u128, u128)> = Vec::new();
    let mut i: usize = 0;
    while i < candidates.len()
        invariant
            i <= candidates.len(),
            keys@.len() == i,
            forall|j: int|
                0 <= j < i ==> #[trigger] keys@[j] == (
                    candidates@[j].path.total_cost as u128,
                    0u128,
                ),
        decreases candidates.len() - i,
    {
        keys.push((candidates[i].path.total_cost as u128, 0));
        i += 1;
    }
    let order = stable_order(keys.as_slice());
    proof {
        assert forall|k: int| 0 <= k < candidates@.len() implies (
        #[trigger] candidates@[k]).path.total_cost == pair_cost(
            cells,
            movement,
            owner,
            pair_of(candidates@[k]),
        ) by {}
        assert forall|a: int, b: int| 0 <= a < b < order@.len() implies pair_before(
            cells,
            movement,
            owner,
            pair_of(candidates@[#[trigger] order@[a] as int]),
            pair_of(candidates@[#[trigger] order@[b] as int]),
        ) by {
            let x = order@[a];
            let y = order@[b];
            assert(key_before(keys@, x, y));
            if keys@[x as int] == keys@[y as int] {
                assert(lex_lt(pairs_of(candidates@)[x as int], pairs_of(candidates@)[y as int]));
            }
        }
    }
    order
}

pub proof fn lemma_amounts_push(shares: Seq<Share>, x: Share, wanted: spec_fn(Share) -> bool)
    ensures
        sum(amounts_where(shares.push(x), wanted)) == sum(amounts_where(shares, wanted))
            + if wanted(x) {
            x.2
        } else {
            0
        },
{
    let y = if wanted(x) {
        x.2
    } else {
        0
    };
    assert(amounts_where(shares.push(x), wanted) =~= amounts_where(shares, wanted).push(y));
    lemma_sum_push(amounts_where(shares, wanted), y);
}

proof fn lemma_nothing_allotted(wanted: spec_fn(Share) -> bool)
    ensures
        sum(amounts_where(Seq::empty(), wanted)) == 0,
{
    assert(amounts_where(Seq::<Share>::empty(), wanted) =~= Seq::empty());
}

/// A plan moves no more than was asked for, takes no more from a cell than it
/// holds, and brings no more to a cell than it has room for.
pub proof fn law_plans_stay_within_limits(
    cells: Map<Axial, Cell>,
    amount: int,
    pairs: Seq<(Axial, Axial)>,
    c: Axial,
)
    requires
        amount >= 0,
    ensures
        0 <= moved(allot(cells, amount, pairs)) <= amount,
        0 <= taken(allot(cells, amount, pairs), c) <= cells[c].forces.infantry,
        0 <= brought(allot(cells, amount, pairs), c) <= free_capacity(cells[c]),
    decreases pairs.len(),
{
    let shares = allot(cells, amount, pairs);
    if pairs.len() == 0 {
        lemma_nothing_allotted(any_share());
        lemma_nothing_allotted(leaves(c));
        lemma_nothing_allotted(arrives(c));
    } else {
        law_plans_stay_within_limits(cells, amount, pairs.drop_last(), c);
        let earlier = allot(cells, amount, pairs.drop_last());
        if shares.len() > earlier.len() {
            let x = shares.last();
            assert(shares =~= earlier.push(x));
            lemma_amounts_push(earlier, x, any_share());
            lemma_amounts_push(earlier, x, leaves(c));
            lemma_amounts_push(earlier, x, arrives(c));
        } else {
            assert(shares == earlier);
        }
    }
}

/// The candidate list is determined by the selection and the map.
pub proof fn law_candidate_list_is_unique(
    cells: Map<Axial, Cell>,
    movement: MovementConfig,
    owner: PlayerId,
    sources: Set<Axial>,
    destinations: Set<Axial>,
    s: Seq<(Axial, Axial)>,
    t: Seq<(Axial, Axial)>,
)
    requires
        is_candidate_list(cells, movement, owner, sources, destinations, s),
        is_candidate_list(cells, movement, owner, sources, destinations, t),
    ensures
        s == t,
{
    let before = |a: (Axial, Axial), b: (Axial, Axial)|
        pair_before(cells, movement, owner, a, b);
    assert forall|p: (Axial, Axial)| s.to_set().contains(p) <==> t.to_set().contains(p) by {
        assert(s.contains(p) <==> t.contains(p));
    }
    assert(s.to_set() =~= t.to_set());
    lemma_strictly_sorted_unique(s, t, before);
}

/// The amounts that are still available at the selected cells.
struct Availability {
    remaining: u64,
    sources: AxialMap<u64>,
    destinations: AxialMap<u64>,
}

spec fn availability_matches(
    cells: Map<Axial, Cell>,
    amount: int,
    sources: Set<Axial>,
    destinations: Set<Axial>,
    shares: Seq<Share>,
    a: Availability,
) -> bool {
    &&& a.remaining == amount - moved(shares)
    &&& a.sources@.dom() == sources
    &&& a.destinations@.dom() == destinations
    &&& forall|c: Axial| #[trigger]
        sources.contains(c) ==> a.sources@[c] == cells[c].forces.infantry - taken(shares, c)
    &&& forall|c: Axial| #[trigger]
        destinations.contains(c) ==> a.destinations@[c] == free_capacity(cells[c]) - brought(
            shares,
            c,
        )
}

fn initial_availability(
    map: &HexMap,
    amount: u64,
    sources: &Vec<Axial>,
    destinations: &Vec<Axial>,
) -> (a: Availability)
    requires
        forall|c: Axial| #[trigger] sources@.to_set().contains(c) ==> map@.contains_key(c),
        forall|c: Axial| #[trigger] destinations@.to_set().contains(c) ==> map@.contains_key(c),
    ensures
        availability_matches(
            map@,
            amount as int,
            sources@.to_set(),
            destinations@.to_set(),
            Seq::empty(),
            a,
        ),
{
    let mut from: AxialMap<u64> = AxialMap::new();
    let mut i: usize = 0;
    assert(sources@.take(0).to_set() =~= Set::empty());
    assert(from@.dom() =~= Set::empty());
    while i < sources.len()
        invariant
            i <= sources.len(),
            forall|c: Axial| #[trigger] sources@.to_set().contains(c) ==> map@.contains_key(c),
            from@.dom() == sources@.take(i as int).to_set(),
            forall|c: Axial| #[trigger] from@.contains_key(c) ==> from@[c] == map@[c].forces.infantry,
        decreases sources.len() - i,
    {
        let c = sources[i];
        assert(sources@.contains(c));
        assert(sources@.to_set().contains(c));
        match map.get(c) {
            Some(cell) => {
                from.insert(c, cell.force());
            },
            None => {
                assert(false);
            },
        }
        proof {
            assert(sources@.take(i + 1) =~= sources@.take(i as int).push(c));
            crate::axials::lemma_to_set_push(sources@.take(i as int), c);
            assert(from@.dom() =~= sources@.take(i + 1).to_set());
        }
        i += 1;
    }
    assert(sources@.take(i as int) =~= sources@);
    let mut to: AxialMap<u64> = AxialMap::new();
    let mut k: usize = 0;
    assert(destinations@.take(0).to_set() =~= Set::empty());
    assert(to@.dom() =~= Set::empty());
    while k < destinations.len()
        invariant
            k <= destinations.len(),
            forall|c: Axial| #[trigger] destinations@.to_set().contains(c) ==> map@.contains_key(c),
            to@.dom() == destinations@.take(k as int).to_set(),
            forall|c: Axial| #[trigger] to@.contains_key(c) ==> to@[c] == free_capacity(map@[c]),
        decreases destinations.len() - k,
    {
        let c = destinations[k];
        assert(destinations@.contains(c));
        assert(destinations@.to_set().contains(c));
        match map.get(c) {
            Some(cell) => {
                to.insert(c, cell.free_military_capacity());
            },
            None => {
                assert(false);
            },
        }
        proof {
            assert(destinations@.take(k + 1) =~= destinations@.take(k as int).push(c));
            crate::axials::lemma_to_set_push(destinations@.take(k as int), c);
            assert(to@.dom() =~= destinations@.take(k + 1).to_set());
        }
        k += 1;
    }
    assert(destinations@.take(k as int) =~= destinations@);
    proof {
        lemma_nothing_allotted(any_share());
        assert forall|c: Axial| taken(Seq::empty(), c) == 0 && brought(Seq::empty(), c) == 0 by {
            lemma_nothing_allotted(leaves(c));
            lemma_nothing_allotted(arrives(c));
        }
        assert forall|c: Axial| #[trigger] sources@.to_set().contains(c) implies from@[c]
            == map@[c].forces.infantry - taken(Seq::empty(), c) by {
            assert(from@.contains_key(c));
        }
        assert forall|c: Axial| #[trigger] destinations@.to_set().contains(c) implies to@[c]
            == free_capacity(map@[c]) - brought(Seq::empty(), c) by {
            assert(to@.contains_key(c));
        }
    }
    Availability { remaining: amount, sources: from, destinations: to }
}

/// Allots the request to the candidates in order.
fn make_legs(
    candidates: &Vec<Candidate>,
    order: &Vec<usize>,
    start: Availability,
    Ghost(cells): Ghost<Map<Axial, Cell>>,
    Ghost(movement): Ghost<MovementConfig>,
    Ghost(owner): Ghost<PlayerId>,
    Ghost(amount): Ghost<int>,
    Ghost(sources): Ghost<Set<Axial>>,
    Ghost(destinations): Ghost<Set<Axial>>,
) -> (result: (Vec<TransferLeg>, u64))
    requires
        amount >= 0,
        availability_matches(cells, amount, sources, destinations, Seq::empty(), start),
        well_routed(cells, movement, owner, candidates@),
        forall|k: int|
            0 <= k < candidates@.len() ==> sources.contains((#[trigger] candidates@[k]).source)
                && destinations.contains(candidates@[k].destination),
        forall|a: int| 0 <= a < order@.len() ==> (#[trigger] order@[a]) < candidates@.len(),
    ensures
        ({
            let pairs = Seq::new(order@.len(), |a: int| pair_of(candidates@[order@[a] as int]));
            let shares = allot(cells, amount, pairs);
            &&& result.1 == amount - moved(shares)
            &&& result.0@.len() == shares.len()
            &&& forall|i: int|
                0 <= i < shares.len() ==> is_leg(
                    cells,
                    movement,
                    owner,
                    #[trigger] shares[i],
                    result.0@[i],
                )
        }),
{
    let ghost pairs = Seq::new(order@.len(), |a: int| pair_of(candidates@[order@[a] as int]));
    let mut state = start;
    let mut legs: Vec<TransferLeg> = Vec::new();
    let ghost mut shares = Seq::<Share>::empty();
    let mut p: usize = 0;
    assert(pairs.take(0) =~= Seq::empty());
    while p < order.len()
        invariant
            p <= order.len(),
            amount >= 0,
            pairs == Seq::new(order@.len(), |a: int| pair_of(candidates@[order@[a] as int])),
            shares == allot(cells, amount, pairs.take(p as int)),
            availability_matches(cells, amount, sources, destinations, shares, state),
            well_routed(cells, movement, owner, candidates@),
            forall|k: int|
                0 <= k < candidates@.len() ==> sources.contains((#[trigger] candidates@[k]).source)
                    && destinations.contains(candidates@[k].destination),
            forall|a: int| 0 <= a < order@.len() ==> (#[trigger] order@[a]) < candidates@.len(),
            legs@.len() == shares.len(),
            forall|i: int|
                0 <= i < shares.len() ==> is_leg(
                    cells,
                    movement,
                    owner,
                    #[trigger] shares[i],
                    legs@[i],
                ),
        decreases order.len() - p,
    {
        let candidate = &candidates[order[p]];
        let source = candidate.source;
        let destination = candidate.destination;
        proof {
            assert(pairs[p as int] == pair_of(*candidate));
            assert(pairs.take(p + 1).drop_last() =~= pairs.take(p as int));
            assert(pairs.take(p + 1).last() == (source, destination));
            assert(sources.contains(source));
            assert(destinations.contains(destination));
            assert(state.sources@.dom().contains(source));
            assert(state.destinations@.dom().contains(destination));
        }
        let available_source: u64 = match state.sources.get(source) {
            Some(left) => *left,
            None => 0,
        };
        let available_destination: u64 = match state.destinations.get(destination) {
            Some(left) => *left,
            None => 0,
        };
        let mut share: u64 = state.remaining;
        if available_source < share {
            share = available_source;
        }
        if available_destination < share {
            share = available_destination;
        }
        if share > 0 {
            let ghost was = shares;
            let ghost x: Share = (source, destination, share as int);
            state.sources.insert(source, available_source - share);
            state.destinations.insert(destination, available_destination - share);
            state.remaining = state.remaining - share;
            legs.push(
                TransferLeg { source, destination, amount: share, path: copy_path(&candidate.path) },
            );
            proof {
                shares = was.push(x);
                lemma_amounts_push(was, x, any_share());
                assert forall|c: Axial| #[trigger] taken(shares, c) == taken(was, c) + if source
                    == c {
                    share as int
                } else {
                    0
                } by {
                    lemma_amounts_push(was, x, leaves(c));
                }
                assert forall|c: Axial| #[trigger] brought(shares, c) == brought(was, c)
                    + if destination == c {
                    share as int
                } else {
                    0
                } by {
                    lemma_amounts_push(was, x, arrives(c));
                }
                assert(state.sources@.dom() =~= sources);
                assert(state.destinations@.dom() =~= destinations);
                assert(is_leg(cells, movement, owner, x, legs@[was.len() as int]));
                assert forall|i: int| 0 <= i < shares.len() implies is_leg(
                    cells,
                    movement,
                    owner,
                    #[trigger] shares[i],
                    legs@[i],
                ) by {
                    if i < was.len() {
                        assert(is_leg(cells, movement, owner, was[i], legs@[i]));
                    }
                }
            }
        }
        p += 1;
    }
    assert(pairs.take(p as int) =~= pairs);
    (legs, state.remaining)
}

/// The first cell that is in both selections.
fn find_overlap(sources: &Vec<Axial>, destinations: &AxialSet) -> (found: Option<Axial>)
    requires
        ascending(sources@),
    ensures
        match found {
            Some(c) => least_where(
                sources@.to_set(),
                |c: Axial| destinations@.contains(c),
                c,
            ),
            None => forall|c: Axial| #[trigger]
                sources@.to_set().contains(c) ==> !destinations@.contains(c),
        },
{
    let ghost shared = |c: Axial| destinations@.contains(c);
    let mut i: usize = 0;
    while i < sources.len()
        invariant
            i <= sources.len(),
            ascending(sources@),
            shared == (|c: Axial| destinations@.contains(c)),
            forall|j: int| 0 <= j < i ==> !destinations@.contains(#[trigger] sources@[j]),
        decreases sources.len() - i,
    {
        let c = sources[i];
        if destinations.contains(c) {
            proof {
                assert(sources@.contains(c));
                assert forall|d: Axial| #[trigger]
                    sources@.to_set().contains(d) && axial_lt(d, c) implies !shared(d) by {
                    assert(sources@.contains(d));
                    let j = choose|j: int| 0 <= j < sources@.len() && sources@[j] == d;
                    if j > i {
                        assert(axial_lt(sources@[i as int], sources@[j]));
                    }
                    assert(!destinations@.contains(sources@[j]));
                }
                assert(least_where(sources@.to_set(), shared, c));
            }
            return Some(c);
        }
        i += 1;
    }
    proof {
        assert forall|c: Axial| #[trigger]
            sources@.to_set().contains(c) implies !destinations@.contains(c) by {
            assert(sources@.contains(c));
            let j = choose|j: int| 0 <= j < sources@.len() && sources@[j] == c;
            assert(!destinations@.contains(sources@[j]));
        }
    }
    None
}

/// The listed cells that are not in a set, in the order of the list.
fn missing_from(listed: &Vec<Axial>, found: &AxialSet) -> (missing: Vec<Axial>)
    requires
        ascending(listed@),
    ensures
        missing@ == ordered(listed@.to_set().filter(|c: Axial| !found@.contains(c))),
{
    let ghost absent = |c: Axial| !found@.contains(c);
    let mut missing: Vec<Axial> = Vec::new();
    let mut i: usize = 0;
    while i < listed.len()
        invariant
            i <= listed.len(),
            ascending(listed@),
            absent == (|c: Axial| !found@.contains(c)),
            ascending(missing@),
            forall|c: Axial| #[trigger]
                missing@.contains(c) <==> listed@.take(i as int).contains(c) && absent(c),
        decreases listed.len() - i,
    {
        let c = listed[i];
        let ghost then = listed@.take(i as int);
        let ghost was = missing@;
        assert(listed@.take(i + 1) =~= then.push(c));
        if !found.contains(c) {
            missing.push(c);
            proof {
                assert forall|x: int, y: int| 0 <= x < y < missing@.len() implies axial_lt(
                    #[trigger] missing@[x],
                    #[trigger] missing@[y],
                ) by {
                    if y == was.len() {
                        assert(was.contains(was[x]));
                        let j = choose|j: int| 0 <= j < then.len() && then[j] == was[x];
                        assert(axial_lt(listed@[j], listed@[i as int]));
                    } else {
                        assert(axial_lt(was[x], was[y]));
                    }
                }
            }
        }
        proof {
            assert forall|d: Axial| #[trigger]
                missing@.contains(d) <==> listed@.take(i + 1).contains(d) && absent(d) by {
                crate::axials::lemma_contains_push(then, c, d);
                crate::axials::lemma_contains_push(was, c, d);
            }
        }
        i += 1;
    }
    proof {
        assert(listed@.take(i as int) =~= listed@);
        let wanted = listed@.to_set().filter(|c: Axial| !found@.contains(c));
        assert forall|c: Axial| missing@.to_set().contains(c) <==> wanted.contains(c) by {
            assert(missing@.contains(c) <==> listed@.contains(c) && absent(c));
        }
        assert(missing@.to_set() =~= wanted);
        lemma_ordered_is(missing@, wanted);
    }
    missing
}

/// The destinations that have no room left.
fn full_cells(map: &HexMap, destinations: &Vec<Axial>) -> (full: Vec<Axial>)
    requires
        ascending(destinations@),
        forall|c: Axial| #[trigger] destinations@.to_set().contains(c) ==> map@.contains_key(c),
    ensures
        full@ == ordered(destinations@.to_set().filter(|d: Axial| free_capacity(map@[d]) == 0)),
{
    let mut roomy = AxialSet::new();
    let mut i: usize = 0;
    while i < destinations.len()
        invariant
            i <= destinations.len(),
            forall|c: Axial| #[trigger] destinations@.to_set().contains(c) ==> map@.contains_key(c),
            forall|c: Axial| #[trigger]
                roomy@.contains(c) <==> destinations@.take(i as int).contains(c) && free_capacity(
                    map@[c],
                ) != 0,
        decreases destinations.len() - i,
    {
        let c = destinations[i];
        assert(destinations@.contains(c));
        assert(destinations@.to_set().contains(c));
        let ghost then = destinations@.take(i as int);
        assert(destinations@.take(i + 1) =~= then.push(c));
        match map.get(c) {
            Some(cell) => {
                if cell.free_military_capacity() != 0 {
                    roomy.insert(c);
                }
            },
            None => {
                assert(false);
            },
        }
        proof {
            assert forall|d: Axial| #[trigger]
                roomy@.contains(d) <==> destinations@.take(i + 1).contains(d) && free_capacity(
                    map@[d],
                ) != 0 by {
                crate::axials::lemma_contains_push(then, c, d);
            }
        }
        i += 1;
    }
    assert(destinations@.take(i as int) =~= destinations@);
    let full = missing_from(destinations, &roomy);
    proof {
        let a = destinations@.to_set().filter(|c: Axial| !roomy@.contains(c));
        let b = destinations@.to_set().filter(|d: Axial| free_capacity(map@[d]) == 0);
        assert forall|c: Axial| a.contains(c) <==> b.contains(c) by {
            assert(roomy@.contains(c) <==> destinations@.contains(c) && free_capacity(map@[c])
                != 0);
        }
        assert(a =~= b);
    }
    full
}

/// The sources and the destinations of the candidates.
fn connected_ends(candidates: &Vec<Candidate>) -> (ends: (AxialSet, AxialSet))
    ensures
        forall|c: Axial| #[trigger]
            ends.0@.contains(c) <==> exists|k: int|
                0 <= k < candidates@.len() && (#[trigger] candidates@[k]).source == c,
        forall|c: Axial| #[trigger]
            ends.1@.contains(c) <==> exists|k: int|
                0 <= k < candidates@.len() && (#[trigger] candidates@[k]).destination == c,
{
    let mut sources = AxialSet::new();
    let mut destinations = AxialSet::new();
    let mut i: usize = 0;
    while i < candidates.len()
        invariant
            i <= candidates.len(),
            forall|c: Axial| #[trigger]
                sources@.contains(c) <==> exists|k: int|
                    0 <= k < i && (#[trigger] candidates@[k]).source == c,
            forall|c: Axial| #[trigger]
                destinations@.contains(c) <==> exists|k: int|
                    0 <= k < i && (#[trigger] candidates@[k]).destination == c,
        decreases candidates.len() - i,
    {
        let s = candidates[i].source;
        let d = candidates[i].destination;
        sources.insert(s);
        destinations.insert(d);
        assert(candidates@[i as int].source == s && candidates@[i as int].destination == d);
        i += 1;
    }
    (sources, destinations)
}

/// Plans a friendly source-to-destination transfer without mutating the map.
///
/// Candidate pairs are considered by `(route cost, source, destination)`, so
/// allocation and route choice remain stable across selection gesture order.
pub fn plan_transfer(map: &HexMap, request: &TransferRequest, movement: &MovementConfig) -> (plan:
    Result<TransferPlan, PlanError>)
    requires
        owned_is_interior(map@, request.owner),
    ensures
        match plan {
            Ok(p) => is_sound(map@, *request) && plans(map@, *movement, *request, p),
            Err(e) => refuses(map@, *request, e),
        },
{
    let source_set = AxialSet::from_slice(request.sources.as_slice());
    let destination_set = AxialSet::from_slice(request.destinations.as_slice());
    if request.sources.len() == 0 {
        return Err(PlanError::EmptySources);
    }
    if request.destinations.len() == 0 {
        return Err(PlanError::EmptyDestinations);
    }
    if request.amount == 0 {
        return Err(PlanError::ZeroAmount);
    }
    let sources = source_set.to_vec();
    let destinations = destination_set.to_vec();
    match find_overlap(&sources, &destination_set) {
        Some(c) => {
            return Err(PlanError::OverlappingSelections(c));
        },
        None => {},
    }
    match find_selection_fault(map, request.owner, &sources) {
        Some((c, missing)) => {
            if missing {
                return Err(PlanError::UnknownSource(c));
            }
            return Err(PlanError::SourceNotOwned(c));
        },
        None => {},
    }
    match find_selection_fault(map, request.owner, &destinations) {
        Some((c, missing)) => {
            if missing {
                return Err(PlanError::UnknownDestination(c));
            }
            return Err(PlanError::DestinationNotOwned(c));
        },
        None => {},
    }
    let candidates = gather(map, movement, request.owner, &sources, &destinations);
    let order = rank(&candidates, Ghost(map@), Ghost(*movement), Ghost(request.owner));
    let start = initial_availability(map, request.amount, &sources, &destinations);
    let ghost pairs = Seq::new(order@.len(), |a: int| pair_of(candidates@[order@[a] as int]));
    let ghost s = source_set@;
    let ghost d = destination_set@;
    proof {
        assert forall|k: int| 0 <= k < candidates@.len() implies s.contains(
            (#[trigger] candidates@[k]).source,
        ) && d.contains(candidates@[k].destination) by {
            assert(pairs_of(candidates@)[k] == pair_of(candidates@[k]));
            assert(pairs_of(candidates@).contains(pair_of(candidates@[k])));
            assert(sources@.to_set().contains(candidates@[k].source));
            assert(destinations@.to_set().contains(candidates@[k].destination));
        }
        assert forall|p: (Axial, Axial)| #[trigger]
            pairs.contains(p) <==> s.contains(p.0) && d.contains(p.1) && reaches(
                map@,
                *movement,
                request.owner,
                p.0,
                p.1,
            ) by {
            assert(pairs_of(candidates@).contains(p) <==> sources@.contains(p.0)
                && destinations@.contains(p.1) && reaches(
                map@,
                *movement,
                request.owner,
                p.0,
                p.1,
            ));
            assert(sources@.contains(p.0) <==> sources@.to_set().contains(p.0));
            assert(destinations@.contains(p.1) <==> destinations@.to_set().contains(p.1));
            if pairs.contains(p) {
                let a = choose|a: int| 0 <= a < pairs.len() && pairs[a] == p;
                assert(pairs_of(candidates@)[order@[a] as int] == p);
            }
            if pairs_of(candidates@).contains(p) {
                let k = choose|k: int| 0 <= k < candidates@.len() && pairs_of(candidates@)[k] == p;
                assert(order@.contains(k as usize));
                let a = choose|a: int| 0 <= a < order@.len() && order@[a] == k as usize;
                assert(pairs[a] == p);
            }
        }
        assert(is_candidate_list(map@, *movement, request.owner, s, d, pairs));
    }
    let (legs, remaining) = make_legs(
        &candidates,
        &order,
        start,
        Ghost(map@),
        Ghost(*movement),
        Ghost(request.owner),
        Ghost(request.amount as int),
        Ghost(s),
        Ghost(d),
    );
    let (reachable_sources, reachable_destinations) = connected_ends(&candidates);
    let unreachable_sources = missing_from(&sources, &reachable_sources);
    let unreachable_destinations = missing_from(&destinations, &reachable_destinations);
    let full_destinations = full_cells(map, &destinations);
    proof {
        law_plans_stay_within_limits(map@, request.amount as int, pairs, Axial { q: 0, r: 0 });
        let lost_s = s.filter(
            |s: Axial|
                forall|d2: Axial|
                    d.contains(d2) ==> !#[trigger] reaches(
                        map@,
                        *movement,
                        request.owner,
                        s,
                        d2,
                    ),
        );
        assert(s.filter(|c: Axial| !reachable_sources@.contains(c)) =~= lost_s) by {
            assert forall|c: Axial| s.contains(c) implies (reachable_sources@.contains(c)
                <==> exists|d2: Axial|
                d.contains(d2) && #[trigger] reaches(map@, *movement, request.owner, c, d2)) by {
                if reachable_sources@.contains(c) {
                    let k = choose|k: int|
                        0 <= k < candidates@.len() && (#[trigger] candidates@[k]).source == c;
                    assert(pairs_of(candidates@)[k] == pair_of(candidates@[k]));
                    assert(pairs_of(candidates@).contains(pair_of(candidates@[k])));
                    assert(destinations@.to_set().contains(candidates@[k].destination));
                    assert(reaches(
                        map@,
                        *movement,
                        request.owner,
                        c,
                        candidates@[k].destination,
                    ));
                }
                if exists|d2: Axial|
                    d.contains(d2) && #[trigger] reaches(map@, *movement, request.owner, c, d2) {
                    let d2 = choose|d2: Axial|
                        d.contains(d2) && #[trigger] reaches(map@, *movement, request.owner, c, d2);
                    assert(sources@.to_set().contains(c));
                    assert(destinations@.to_set().contains(d2));
                    assert(pairs_of(candidates@).contains((c, d2)));
                    let k = choose|k: int|
                        0 <= k < candidates@.len() && pairs_of(candidates@)[k] == (c, d2);
                    assert(candidates@[k].source == c);
                }
            }
        }
        let lost_d = d.filter(
            |d2: Axial|
                forall|s2: Axial|
                    s.contains(s2) ==> !#[trigger] reaches(
                        map@,
                        *movement,
                        request.owner,
                        s2,
                        d2,
                    ),
        );
        assert(d.filter(|c: Axial| !reachable_destinations@.contains(c)) =~= lost_d) by {
            assert forall|c: Axial| d.contains(c) implies (reachable_destinations@.contains(c)
                <==> exists|s2: Axial|
                s.contains(s2) && #[trigger] reaches(map@, *movement, request.owner, s2, c)) by {
                if reachable_destinations@.contains(c) {
                    let k = choose|k: int|
                        0 <= k < candidates@.len() && (#[trigger] candidates@[k]).destination == c;
                    assert(pairs_of(candidates@)[k] == pair_of(candidates@[k]));
                    assert(pairs_of(candidates@).contains(pair_of(candidates@[k])));
                    assert(sources@.to_set().contains(candidates@[k].source));
                    assert(reaches(map@, *movement, request.owner, candidates@[k].source, c));
                }
                if exists|s2: Axial|
                    s.contains(s2) && #[trigger] reaches(map@, *movement, request.owner, s2, c) {
                    let s2 = choose|s2: Axial|
                        s.contains(s2) && #[trigger] reaches(map@, *movement, request.owner, s2, c);
                    assert(sources@.to_set().contains(s2));
                    assert(destinations@.to_set().contains(c));
                    assert(pairs_of(candidates@).contains((s2, c)));
                    let k = choose|k: int|
                        0 <= k < candidates@.len() && pairs_of(candidates@)[k] == (s2, c);
                    assert(candidates@[k].destination == c);
                }
            }
        }
    }
    let plan = TransferPlan {
        owner: request.owner,
        requested: request.amount,
        planned: request.amount - remaining,
        unplanned: remaining,
        legs,
        unreachable_sources,
        unreachable_destinations,
        full_destinations,
    };
    proof {
        assert(is_plan(map@, *movement, *request, pairs, plan));
        assert(plans(map@, *movement, *request, plan));
    }
    Ok(plan)
}

} // verus!
