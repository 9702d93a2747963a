//! Fronts and contested cells, as the view shows them.
use vstd::prelude::*;
use crate::axials::AxialMap;
use crate::coord::Axial;
use crate::projection::{CellBoard, CellView};
use crate::table::{keys_ascending, rows_in_order, Table};
use crate::tactical::CombatFront;

verus! {

/// A front between two cells. How fierce it is, is the share of the frontage
/// that is engaged.
#[derive(Clone, Copy, Debug, Eq, PartialEq, Structural)]
pub struct ActiveFront {
    pub friendly: Axial,
    pub hostile: Axial,
    pub engaged: u64,
    pub frontage: u64,
}

/// A cell that somebody fights for. The attacker's share is their strength out
/// of the total.
#[derive(Clone, Copy, Debug, Eq, PartialEq, Structural)]
pub struct ContestedCellView {
    pub controller_player: u32,
    pub attacker_player: u32,
    pub attacker_strength: u64,
    pub total_strength: u64,
}

/// A sum that stops at the largest number.
pub open spec fn capped(x: int) -> u64 {
    if x > u64::MAX {
        u64::MAX
    } else {
        x as u64
    }
}

fn capped_sum(x: u64, y: u64) -> (z: u64)
    ensures
        z == capped(x + y),
{
    if x > u64::MAX - y {
        u64::MAX
    } else {
        x + y
    }
}

/// How many soldiers press on a front.
pub open spec fn pressure(front: CombatFront) -> u64 {
    let all = capped(front.queued_infantry + front.attacker_engaged);
    if all > front.attacker_casualties {
        (all - front.attacker_casualties) as u64
    } else {
        0
    }
}

pub fn attacker_pressure(front: &CombatFront) -> (soldiers: u64)
    ensures
        soldiers == pressure(*front),
{
    let all: u64 = capped_sum(front.queued_infantry, front.attacker_engaged);
    if all > front.attacker_casualties {
        all - front.attacker_casualties
    } else {
        0
    }
}

/// The two places of a front, if both are known.
pub open spec fn places(ids: Map<u128, Axial>, front: CombatFront) -> Option<(Axial, Axial)> {
    if ids.contains_key(front.from_cell as u128) && ids.contains_key(front.to_cell as u128) {
        Some((ids[front.from_cell as u128], ids[front.to_cell as u128]))
    } else {
        None
    }
}

/// How a player sees a front: from their own side.
pub open spec fn drawn(front: CombatFront, from: Axial, to: Axial, local_player: u32) -> ActiveFront {
    let defends = front.attacker_player_id as u32 != local_player && front.defender_player_id as u32
        == local_player;
    ActiveFront {
        friendly: if defends {
            to
        } else {
            from
        },
        hostile: if defends {
            from
        } else {
            to
        },
        engaged: if front.attacker_engaged >= front.defender_engaged {
            front.attacker_engaged
        } else {
            front.defender_engaged
        },
        frontage: front.frontage,
    }
}

/// The fronts that a player sees.
pub open spec fn seen_fronts(
    ids: Map<u128, Axial>,
    fronts: Seq<CombatFront>,
    local_player: u32,
) -> Seq<ActiveFront>
    decreases fronts.len(),
{
    if fronts.len() == 0 {
        seq![]
    } else {
        let rest = seen_fronts(ids, fronts.drop_last(), local_player);
        match places(ids, fronts.last()) {
            Some((from, to)) => rest.push(drawn(fronts.last(), from, to, local_player)),
            None => rest,
        }
    }
}

/// Whether a player attacks a cell on one of some fronts.
pub open spec fn attacks(
    ids: Map<u128, Axial>,
    fronts: Seq<CombatFront>,
    target: Axial,
    player: u128,
) -> bool {
    exists|i: int| 0 <= i < fronts.len() && #[trigger] presses(ids, fronts[i], target, player)
}

pub open spec fn presses(
    ids: Map<u128, Axial>,
    front: CombatFront,
    target: Axial,
    player: u128,
) -> bool {
    places(ids, front) matches Some((from, to)) && to == target && front.attacker_player_id as u128
        == player
}

/// With how many soldiers a player presses on a cell.
pub open spec fn total_pressure(
    ids: Map<u128, Axial>,
    fronts: Seq<CombatFront>,
    target: Axial,
    player: u128,
) -> u64
    decreases fronts.len(),
{
    if fronts.len() == 0 {
        0
    } else {
        let rest = total_pressure(ids, fronts.drop_last(), target, player);
        if presses(ids, fronts.last(), target, player) {
            capped(rest + pressure(fronts.last()))
        } else {
            rest
        }
    }
}

/// Whether a player presses hardest on a cell; of several, the one with the
/// lowest number.
pub open spec fn is_strongest(
    ids: Map<u128, Axial>,
    fronts: Seq<CombatFront>,
    target: Axial,
    player: u128,
) -> bool {
    &&& attacks(ids, fronts, target, player)
    &&& forall|other: u128| #[trigger]
        attacks(ids, fronts, target, other) ==> total_pressure(ids, fronts, target, other)
            < total_pressure(ids, fronts, target, player) || (total_pressure(
            ids,
            fronts,
            target,
            other,
        ) == total_pressure(ids, fronts, target, player) && player <= other)
}

/// Whether a cell is contested, and how: by the player who presses hardest, if
/// they do not hold it and there is anybody to fight.
pub open spec fn is_contest(
    ids: Map<u128, Axial>,
    cells: Map<Axial, CellView>,
    fronts: Seq<CombatFront>,
    target: Axial,
    contest: ContestedCellView,
) -> bool {
    let strength = contest.attacker_strength;
    &&& is_strongest(ids, fronts, target, contest.attacker_player as u128)
    &&& strength == total_pressure(ids, fronts, target, contest.attacker_player as u128)
    &&& cells.contains_key(target)
    &&& cells[target].owner != Some(contest.attacker_player)
    &&& contest.total_strength == capped(strength + cells[target].infantry)
    &&& contest.total_strength > 0
    &&& contest.controller_player == (match cells[target].owner {
        Some(player) => player,
        None => 0,
    })
}

/// A player who presses hardest, if anybody presses, is one only.
pub proof fn law_strongest_is_one(
    ids: Map<u128, Axial>,
    fronts: Seq<CombatFront>,
    target: Axial,
    p: u128,
    q: u128,
)
    requires
        is_strongest(ids, fronts, target, p),
        is_strongest(ids, fronts, target, q),
    ensures
        p == q,
{
    assert(attacks(ids, fronts, target, p) && attacks(ids, fronts, target, q));
}

/// Whether tables hold the pressure on all cells.
spec fn is_pressed(
    pressed: Map<Axial, Table<u64>>,
    ids: Map<u128, Axial>,
    fronts: Seq<CombatFront>,
) -> bool {
    &&& forall|c: Axial, p: u128| #[trigger]
        attacks(ids, fronts, c, p) <==> pressed.contains_key(c) && pressed[c]@.contains_key(p)
    &&& forall|c: Axial, p: u128|
        pressed.contains_key(c) && #[trigger] pressed[c]@.contains_key(p) ==> pressed[c]@[p]
            == total_pressure(ids, fronts, c, p) && p <= u16::MAX
}

proof fn lemma_attacks_push(
    ids: Map<u128, Axial>,
    fronts: Seq<CombatFront>,
    front: CombatFront,
    c: Axial,
    p: u128,
)
    ensures
        attacks(ids, fronts.push(front), c, p) == (attacks(ids, fronts, c, p) || presses(
            ids,
            front,
            c,
            p,
        )),
        total_pressure(ids, fronts.push(front), c, p) == (if presses(ids, front, c, p) {
            capped(total_pressure(ids, fronts, c, p) + pressure(front))
        } else {
            total_pressure(ids, fronts, c, p)
        }),
{
    let more = fronts.push(front);
    assert(more.drop_last() =~= fronts);
    assert(more[fronts.len() as int] == front);
    if attacks(ids, fronts, c, p) {
        let i = choose|i: int| 0 <= i < fronts.len() && #[trigger] presses(ids, fronts[i], c, p);
        assert(presses(ids, more[i], c, p));
    }
    if presses(ids, front, c, p) {
        assert(presses(ids, more[fronts.len() as int], c, p));
    }
    if attacks(ids, more, c, p) {
        let i = choose|i: int| 0 <= i < more.len() && #[trigger] presses(ids, more[i], c, p);
        if i < fronts.len() {
            assert(presses(ids, fronts[i], c, p));
        }
    }
}

proof fn lemma_no_pressure(ids: Map<u128, Axial>, fronts: Seq<CombatFront>, c: Axial, p: u128)
    requires
        !attacks(ids, fronts, c, p),
    ensures
        total_pressure(ids, fronts, c, p) == 0,
    decreases fronts.len(),
{
    if fronts.len() > 0 {
        lemma_attacks_push(ids, fronts.drop_last(), fronts.last(), c, p);
        assert(fronts.drop_last().push(fronts.last()) =~= fronts);
        lemma_no_pressure(ids, fronts.drop_last(), c, p);
    }
}

/// Adds the pressure of a front on a cell.
fn press(pressed: &mut AxialMap<Table<u64>>, target: Axial, player: u16, soldiers: u64)
    ensures
        final(pressed)@.dom() == old(pressed)@.dom().insert(target),
        forall|c: Axial|
            c != target && #[trigger] old(pressed)@.contains_key(c) ==> final(pressed)@[c] == old(
                pressed,
            )@[c],
        final(pressed)@[target]@ == ({
            let before = if old(pressed)@.contains_key(target) {
                old(pressed)@[target]@
            } else {
                Map::empty()
            };
            before.insert(
                player as u128,
                capped(
                    (if before.contains_key(player as u128) {
                        before[player as u128]
                    } else {
                        0
                    }) + soldiers,
                ),
            )
        }),
{
    let mut table: Table<u64> = match pressed.remove(target) {
        Some(table) => table,
        None => Table::new(),
    };
    let before: u64 = match table.get(player as u128) {
        Some(n) => *n,
        None => 0,
    };
    table.insert(player as u128, capped_sum(before, soldiers));
    pressed.insert(target, table);
    assert(pressed@.dom() =~= old(pressed)@.dom().insert(target));
}

/// The player with the most soldiers; of several, the one with the lowest
/// number.
fn strongest(table: &Table<u64>) -> (best: Option<(u128, u64)>)
    ensures
        match best {
            Some((p, n)) => table@.contains_key(p) && n == table@[p] && forall|q: u128| #[trigger]
                table@.contains_key(q) ==> table@[q] < n || (table@[q] == n && p <= q),
            None => table@.dom() =~= Set::<u128>::empty(),
        },
{
    let keys = table.keys();
    let mut best: Option<(u128, u64)> = None;
    let mut i: usize = 0;
    while i < keys.len()
        invariant
            i <= keys@.len(),
            keys_ascending(keys@),
            keys@.to_set() == table@.dom(),
            match best {
                Some((p, n)) => table@.contains_key(p) && n == table@[p] && forall|j: int|
                    0 <= j < i ==> table@[#[trigger] keys@[j]] < n || (table@[keys@[j]] == n && p
                        <= keys@[j]),
                None => i == 0,
            },
            best matches Some((p, n)) ==> forall|j: int| i <= j < keys@.len() ==> p < #[trigger] keys@[j],
        decreases keys.len() - i,
    {
        let key = keys[i];
        assert(keys@.to_set().contains(key));
        let n: u64 = match table.get(key) {
            Some(n) => *n,
            None => vstd::pervasive::unreached(),
        };
        best =
        match best {
            Some((p, m)) => {
                if n > m {
                    Some((key, n))
                } else {
                    Some((p, m))
                }
            },
            None => Some((key, n)),
        };
        i += 1;
    }
    proof {
        assert forall|q: u128| #[trigger] table@.contains_key(q) implies exists|j: int|
            0 <= j < keys@.len() && #[trigger] keys@[j] == q by {
            assert(keys@.to_set().contains(q));
        }
        if best is None {
            assert(table@.dom() =~= Set::<u128>::empty());
        }
    }
    best
}

/// The fronts that a player sees, and the cells that are fought for.
pub fn fronts_to_overlays(board: &CellBoard, fronts: &Table<CombatFront>, local_player: u32) -> (
    overlays: (Vec<ActiveFront>, AxialMap<ContestedCellView>))
    ensures
        overlays.0@ == seen_fronts(
            board.id_to_coordinate@,
            rows_in_order(fronts@),
            local_player,
        ),
        forall|c: Axial| #[trigger]
            overlays.1@.contains_key(c) ==> is_contest(
                board.id_to_coordinate@,
                board.cells@,
                rows_in_order(fronts@),
                c,
                overlays.1@[c],
            ),
        forall|c: Axial, contest: ContestedCellView| #[trigger]
            is_contest(
                board.id_to_coordinate@,
                board.cells@,
                rows_in_order(fronts@),
                c,
                contest,
            ) ==> overlays.1@.contains_key(c),
{
    let keys = fronts.keys();
    let ghost rows = rows_in_order(fronts@);
    let ghost ids = board.id_to_coordinate@;
    let mut overlays: Vec<ActiveFront> = Vec::new();
    let mut pressed: AxialMap<Table<u64>> = AxialMap::new();
    let mut i: usize = 0;
    proof {
        assert(rows.take(0) =~= Seq::<CombatFront>::empty());
        assert(overlays@ =~= seq![]);
        assert forall|c: Axial, p: u128| !(#[trigger] attacks(ids, rows.take(0), c, p)) by {}
    }
    while i < keys.len()
        invariant
            i <= keys@.len(),
            ids == board.id_to_coordinate@,
            rows == keys@.map_values(|k: u128| fronts@[k]),
            keys@.to_set() == fronts@.dom(),
            overlays@ == seen_fronts(ids, rows.take(i as int), local_player),
            is_pressed(pressed@, ids, rows.take(i as int)),
        decreases keys.len() - i,
    {
        let key = keys[i];
        assert(keys@.to_set().contains(key));
        let front: CombatFront = match fronts.get(key) {
            Some(front) => *front,
            None => vstd::pervasive::unreached(),
        };
        let ghost done = rows.take(i as int);
        proof {
            assert(rows.take(i + 1) =~= done.push(front));
            assert(rows.take(i + 1).drop_last() =~= done);
            assert forall|c: Axial, p: u128| #[trigger]
                attacks(ids, done.push(front), c, p) == (attacks(ids, done, c, p) || presses(
                    ids,
                    front,
                    c,
                    p,
                )) && total_pressure(ids, done.push(front), c, p) == (if presses(ids, front, c, p) {
                    capped(total_pressure(ids, done, c, p) + pressure(front))
                } else {
                    total_pressure(ids, done, c, p)
                }) by {
                lemma_attacks_push(ids, done, front, c, p);
            }
        }
        let from: Option<Axial> = match board.id_to_coordinate.get(front.from_cell as u128) {
            Some(c) => Some(*c),
            None => None,
        };
        let to: Option<Axial> = match board.id_to_coordinate.get(front.to_cell as u128) {
            Some(c) => Some(*c),
            None => None,
        };
        match (from, to) {
            (Some(from), Some(to)) => {
                let defends: bool = front.attacker_player_id as u32 != local_player
                    && front.defender_player_id as u32 == local_player;
                let engaged: u64 = if front.attacker_engaged >= front.defender_engaged {
                    front.attacker_engaged
                } else {
                    front.defender_engaged
                };
                overlays.push(
                    ActiveFront {
                        friendly: if defends {
                            to
                        } else {
                            from
                        },
                        hostile: if defends {
                            from
                        } else {
                            to
                        },
                        engaged,
                        frontage: front.frontage,
                    },
                );
                let ghost was = pressed@;
                let ghost player = front.attacker_player_id as u128;
                press(&mut pressed, to, front.attacker_player_id, attacker_pressure(&front));
                proof {
                    lemma_pressed(was, pressed@, ids, done, front, to);
                }
            },
            _ => {
                proof {
                    assert forall|c: Axial, p: u128| #[trigger]
                        attacks(ids, done.push(front), c, p) <==> pressed@.contains_key(c)
                            && pressed@[c]@.contains_key(p) by {
                        assert(attacks(ids, done, c, p) <==> pressed@.contains_key(c)
                            && pressed@[c]@.contains_key(p));
                    }
                    assert forall|c: Axial, p: u128|
                        pressed@.contains_key(c) && #[trigger] pressed@[c]@.contains_key(
                            p,
                        ) implies pressed@[c]@[p] == total_pressure(ids, done.push(front), c, p) && p
                        <= u16::MAX by {
                        lemma_attacks_push(ids, done, front, c, p);
                    }
                }
            },
        }
        i += 1;
    }
    assert(rows.take(i as int) =~= rows);
    let contested = contests(board, &pressed, Ghost(rows));
    (overlays, contested)
}

proof fn lemma_pressed(
    was: Map<Axial, Table<u64>>,
    now: Map<Axial, Table<u64>>,
    ids: Map<u128, Axial>,
    done: Seq<CombatFront>,
    front: CombatFront,
    to: Axial,
)
    requires
        is_pressed(was, ids, done),
        places(ids, front) is Some,
        places(ids, front).unwrap().1 == to,
        now.dom() == was.dom().insert(to),
        forall|c: Axial| c != to && #[trigger] was.contains_key(c) ==> now[c] == was[c],
        now[to]@ == ({
            let before = if was.contains_key(to) {
                was[to]@
            } else {
                Map::empty()
            };
            let player = front.attacker_player_id as u128;
            before.insert(
                player,
                capped(
                    (if before.contains_key(player) {
                        before[player]
                    } else {
                        0
                    }) + pressure(front),
                ),
            )
        }),
    ensures
        is_pressed(now, ids, done.push(front)),
{
    let player = front.attacker_player_id as u128;
    let more = done.push(front);
    assert forall|c: Axial, p: u128| #[trigger]
        attacks(ids, more, c, p) <==> now.contains_key(c) && now[c]@.contains_key(p) by {
        lemma_attacks_push(ids, done, front, c, p);
        assert(attacks(ids, done, c, p) <==> was.contains_key(c) && was[c]@.contains_key(p));
    }
    assert forall|c: Axial, p: u128|
        now.contains_key(c) && #[trigger] now[c]@.contains_key(p) implies now[c]@[p]
        == total_pressure(ids, more, c, p) && p <= u16::MAX by {
        lemma_attacks_push(ids, done, front, c, p);
        assert(attacks(ids, done, c, p) <==> was.contains_key(c) && was[c]@.contains_key(p));
        if !attacks(ids, done, c, p) {
            lemma_no_pressure(ids, done, c, p);
        } else {
            assert(was[c]@.contains_key(p));
        }
    }
}

/// The contested cells, given the pressure on all cells.
fn contests(
    board: &CellBoard,
    pressed: &AxialMap<Table<u64>>,
    Ghost(fronts): Ghost<Seq<CombatFront>>,
) -> (contested: AxialMap<ContestedCellView>)
    requires
        is_pressed(pressed@, board.id_to_coordinate@, fronts),
    ensures
        forall|c: Axial| #[trigger]
            contested@.contains_key(c) ==> is_contest(
                board.id_to_coordinate@,
                board.cells@,
                fronts,
                c,
                contested@[c],
            ),
        forall|c: Axial, contest: ContestedCellView| #[trigger]
            is_contest(board.id_to_coordinate@, board.cells@, fronts, c, contest)
                ==> contested@.contains_key(c),
{
    let listed = pressed.keys();
    let ghost ids = board.id_to_coordinate@;
    let mut contested: AxialMap<ContestedCellView> = AxialMap::new();
    let mut i: usize = 0;
    while i < listed.len()
        invariant
            i <= listed@.len(),
            ids == board.id_to_coordinate@,
            listed@.to_set() == pressed@.dom(),
            is_pressed(pressed@, ids, fronts),
            forall|c: Axial| #[trigger]
                contested@.contains_key(c) ==> is_contest(
                    ids,
                    board.cells@,
                    fronts,
                    c,
                    contested@[c],
                ),
            forall|j: int, contest: ContestedCellView|
                0 <= j < i && #[trigger] is_contest(
                    ids,
                    board.cells@,
                    fronts,
                    listed@[j],
                    contest,
                ) ==> contested@.contains_key(listed@[j]),
        decreases listed.len() - i,
    {
        let target = listed[i];
        assert(listed@.to_set().contains(target));
        let table = match pressed.get(target) {
            Some(table) => table,
            None => vstd::pervasive::unreached(),
        };
        let ghost was = contested@;
        if let Some((p, n)) = strongest(table) {
            proof {
                assert(pressed@[target]@.contains_key(p));
                assert(attacks(ids, fronts, target, p));
                assert forall|other: u128| #[trigger]
                    attacks(ids, fronts, target, other) implies total_pressure(
                    ids,
                    fronts,
                    target,
                    other,
                ) < total_pressure(ids, fronts, target, p) || (total_pressure(
                    ids,
                    fronts,
                    target,
                    other,
                ) == total_pressure(ids, fronts, target, p) && p <= other) by {
                    assert(pressed@[target]@.contains_key(other));
                }
                assert(is_strongest(ids, fronts, target, p));
            }
            let player: u32 = p as u32;
            let mut found: Option<ContestedCellView> = None;
            if let Some(cell) = board.cells.get(target) {
                let total: u64 = capped_sum(n, cell.infantry);
                if cell.owner != Some(player) && total > 0 {
                    found =
                    Some(
                        ContestedCellView {
                            controller_player: match cell.owner {
                                Some(owner) => owner,
                                None => 0,
                            },
                            attacker_player: player,
                            attacker_strength: n,
                            total_strength: total,
                        },
                    );
                }
            }
            proof {
                assert forall|contest: ContestedCellView| #[trigger]
                    is_contest(ids, board.cells@, fronts, target, contest) implies found is Some by {
                    law_strongest_is_one(
                        ids,
                        fronts,
                        target,
                        p,
                        contest.attacker_player as u128,
                    );
                }
            }
            if let Some(contest) = found {
                contested.insert(target, contest);
                assert(is_contest(ids, board.cells@, fronts, target, contest));
            }
        } else {
            proof {
                assert forall|contest: ContestedCellView| !(#[trigger] is_contest(
                    ids,
                    board.cells@,
                    fronts,
                    target,
                    contest,
                )) by {
                    assert(attacks(ids, fronts, target, contest.attacker_player as u128)
                        ==> pressed@[target]@.contains_key(contest.attacker_player as u128));
                    assert(!pressed@[target]@.dom().contains(contest.attacker_player as u128));
                }
            }
        }
        i += 1;
    }
    proof {
        assert forall|c: Axial, contest: ContestedCellView| #[trigger]
            is_contest(ids, board.cells@, fronts, c, contest) implies contested@.contains_key(c) by {
            assert(attacks(ids, fronts, c, contest.attacker_player as u128));
            assert(pressed@.dom().contains(c));
            assert(listed@.to_set().contains(c));
            let j = choose|j: int| 0 <= j < listed@.len() && listed@[j] == c;
            assert(is_contest(ids, board.cells@, fronts, listed@[j], contest));
        }
    }
    contested
}

} // verus!
