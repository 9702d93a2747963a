//! The connected parts of a set of cells.
use vstd::prelude::*;
use crate::flood::{
    is_blank, is_flood, law_flood_finds_what_is_linked, law_linked_is_an_equivalence, linked,
};
use crate::layers::{Grid, LayeredWorld};

verus! {

/// Whether cells are a part: those that are linked with the first, which is the
/// least, in the order of a flood.
pub open spec fn is_part(g: Grid, open: Seq<bool>, part: Seq<u32>) -> bool {
    &&& part.len() > 0
    &&& part[0] < g.count()
    &&& open[part[0] as int]
    &&& forall|i: int| 0 <= i < part.len() ==> part[0] <= #[trigger] part[i]
    &&& exists|links: Seq<(int, int)>| #[trigger] is_flood(g, open, seq![part[0]], part, links)
}

/// Whether these are the parts of the open cells, by their least cells.
pub open spec fn is_part_list(g: Grid, open: Seq<bool>, parts: Seq<Seq<u32>>) -> bool {
    &&& forall|k: int| 0 <= k < parts.len() ==> is_part(g, open, #[trigger] parts[k])
    &&& forall|k: int, l: int|
        0 <= k < l < parts.len() ==> (#[trigger] parts[k])[0] < (#[trigger] parts[l])[0]
    &&& forall|id: int|
        0 <= id < g.count() && #[trigger] open[id] ==> exists|k: int|
            0 <= k < parts.len() && (#[trigger] parts[k]).contains(id as u32)
}

/// Each open cell's part, by its place in a list.
pub open spec fn are_labels(
    open: Seq<bool>,
    parts: Seq<Seq<u32>>,
    labels: Seq<Option<u32>>,
) -> bool {
    &&& labels.len() == open.len()
    &&& forall|id: int|
        0 <= id < labels.len() ==> match #[trigger] labels[id] {
            Some(k) => k < parts.len() && parts[k as int].contains(id as u32),
            None => !open[id],
        }
}

pub open spec fn cells_of(parts: Seq<Vec<u32>>) -> Seq<Seq<u32>> {
    parts.map_values(|part: Vec<u32>| part@)
}

/// Parts and labels.
pub struct Parts {
    pub parts: Vec<Vec<u32>>,
    pub labels: Vec<Option<u32>>,
}

impl Parts {
    /// Whether these are the parts of the open cells.
    pub open spec fn are_of(&self, g: Grid, open: Seq<bool>) -> bool {
        &&& is_part_list(g, open, cells_of(self.parts@))
        &&& are_labels(open, cells_of(self.parts@), self.labels@)
    }
}

/// Two cells are in one part where they are linked, and a cell is in one part
/// only.
pub proof fn law_parts_are_what_is_linked(
    g: Grid,
    open: Seq<bool>,
    parts: Seq<Seq<u32>>,
    k: int,
    l: int,
    a: int,
    b: int,
)
    requires
        g.fits(),
        open.len() == g.count(),
        is_part_list(g, open, parts),
        0 <= k < parts.len(),
        0 <= l < parts.len(),
        0 <= a < g.count(),
        0 <= b < g.count(),
        parts[k].contains(a as u32),
        parts[l].contains(b as u32),
    ensures
        k == l <==> linked(g, open, a, b),
        a == b ==> k == l,
{
    lemma_in_part(g, open, parts[k], a);
    lemma_in_part(g, open, parts[l], b);
    let x = parts[k][0] as int;
    let y = parts[l][0] as int;
    law_linked_is_an_equivalence(g, open, x, a, b);
    law_linked_is_an_equivalence(g, open, a, x, b);
    law_linked_is_an_equivalence(g, open, a, b, y);
    law_linked_is_an_equivalence(g, open, b, y, y);
    law_linked_is_an_equivalence(g, open, y, b, y);
    law_linked_is_an_equivalence(g, open, x, b, y);
    law_linked_is_an_equivalence(g, open, a, a, a);
    if linked(g, open, a, b) {
        assert(linked(g, open, x, y));
        law_linked_is_an_equivalence(g, open, x, y, y);
        lemma_in_part(g, open, parts[k], y);
        lemma_in_part(g, open, parts[l], x);
        assert(parts[k].contains(y as u32));
        assert(parts[l].contains(x as u32));
        let i = choose|i: int| 0 <= i < parts[k].len() && parts[k][i] == y as u32;
        let j = choose|j: int| 0 <= j < parts[l].len() && parts[l][j] == x as u32;
        assert(parts[k][0] <= parts[k][i]);
        assert(parts[l][0] <= parts[l][j]);
        assert(x == y);
        if k < l {
            assert(parts[k][0] < parts[l][0]);
        }
        if l < k {
            assert(parts[l][0] < parts[k][0]);
        }
    }
}

/// A part holds what is linked with its first cell.
pub proof fn lemma_in_part(g: Grid, open: Seq<bool>, part: Seq<u32>, id: int)
    requires
        g.fits(),
        open.len() == g.count(),
        is_part(g, open, part),
        0 <= id < g.count(),
    ensures
        part.contains(id as u32) <==> linked(g, open, part[0] as int, id),
        part.contains(id as u32) ==> open[id],
        part.contains(part[0]),
{
    let links = choose|links: Seq<(int, int)>| #[trigger]
        is_flood(g, open, seq![part[0]], part, links);
    law_flood_finds_what_is_linked(g, open, part[0], part, links, id);
    if part.contains(id as u32) {
        let i = choose|i: int| 0 <= i < part.len() && part[i] == id as u32;
        if i > 0 {
            assert(open[part[i] as int]);
        }
    }
    assert(part[0] == part[0]);
}

/// The labels are determined by the parts.
pub proof fn law_labels_are_unique(
    g: Grid,
    open: Seq<bool>,
    parts: Seq<Seq<u32>>,
    labels: Seq<Option<u32>>,
    labels2: Seq<Option<u32>>,
)
    requires
        g.fits(),
        open.len() == g.count(),
        is_part_list(g, open, parts),
        are_labels(open, parts, labels),
        are_labels(open, parts, labels2),
    ensures
        labels == labels2,
{
    assert forall|id: int| 0 <= id < labels.len() implies labels[id] == labels2[id] by {
        match (labels[id], labels2[id]) {
            (Some(k), Some(l)) => {
                law_parts_are_what_is_linked(g, open, parts, k as int, l as int, id, id);
            },
            (Some(k), None) => {
                lemma_in_part(g, open, parts[k as int], id);
            },
            (None, Some(l)) => {
                lemma_in_part(g, open, parts[l as int], id);
            },
            (None, None) => {},
        }
    }
    assert(labels =~= labels2);
}

/// The list of parts is determined by the open cells.
pub proof fn law_part_list_is_unique(
    g: Grid,
    open: Seq<bool>,
    parts: Seq<Seq<u32>>,
    parts2: Seq<Seq<u32>>,
)
    requires
        g.fits(),
        open.len() == g.count(),
        is_part_list(g, open, parts),
        is_part_list(g, open, parts2),
    ensures
        parts == parts2,
{
    let firsts = parts.map_values(|part: Seq<u32>| part[0]);
    let firsts2 = parts2.map_values(|part: Seq<u32>| part[0]);
    assert forall|x: u32| firsts.to_set().contains(x) implies firsts2.to_set().contains(x) by {
        lemma_first_in_both(g, open, parts, parts2, x);
    }
    assert forall|x: u32| firsts2.to_set().contains(x) implies firsts.to_set().contains(x) by {
        lemma_first_in_both(g, open, parts2, parts, x);
    }
    assert(firsts.to_set() =~= firsts2.to_set());
    crate::order::lemma_strictly_sorted_unique(firsts, firsts2, |x: u32, y: u32| x < y);
    assert(parts.len() == firsts.len() && parts2.len() == firsts2.len());
    assert forall|k: int| 0 <= k < parts.len() implies parts[k] == parts2[k] by {
        assert(firsts[k] == firsts2[k]);
        let a = parts[k];
        let b = parts2[k];
        let links = choose|links: Seq<(int, int)>| #[trigger]
            is_flood(g, open, seq![a[0]], a, links);
        let links2 = choose|links: Seq<(int, int)>| #[trigger]
            is_flood(g, open, seq![b[0]], b, links);
        crate::flood::law_flood_is_unique(g, open, seq![a[0]], a, links, b, links2);
    }
    assert(parts =~= parts2);
}

proof fn lemma_first_in_both(
    g: Grid,
    open: Seq<bool>,
    parts: Seq<Seq<u32>>,
    parts2: Seq<Seq<u32>>,
    x: u32,
)
    requires
        g.fits(),
        open.len() == g.count(),
        is_part_list(g, open, parts),
        is_part_list(g, open, parts2),
        parts.map_values(|part: Seq<u32>| part[0]).to_set().contains(x),
    ensures
        parts2.map_values(|part: Seq<u32>| part[0]).to_set().contains(x),
{
    let firsts = parts.map_values(|part: Seq<u32>| part[0]);
    let firsts2 = parts2.map_values(|part: Seq<u32>| part[0]);
    let k = choose|k: int| 0 <= k < firsts.len() && firsts[k] == x;
    assert(parts[k][0] == x);
    assert(open[x as int]);
    let l = choose|l: int| 0 <= l < parts2.len() && (#[trigger] parts2[l]).contains(x as int as u32);
    let y = parts2[l][0];
    lemma_in_part(g, open, parts2[l], x as int);
    lemma_in_part(g, open, parts2[l], y as int);
    law_linked_is_an_equivalence(g, open, y as int, x as int, x as int);
    lemma_in_part(g, open, parts[k], y as int);
    let i = choose|i: int| 0 <= i < parts[k].len() && parts[k][i] == y;
    let j = choose|j: int| 0 <= j < parts2[l].len() && parts2[l][j] == x;
    assert(parts[k][0] <= parts[k][i]);
    assert(parts2[l][0] <= parts2[l][j]);
    assert(firsts2[l] == x);
}

spec fn in_none(parts: Seq<Seq<u32>>, id: u32) -> bool {
    forall|k: int| 0 <= k < parts.len() ==> !(#[trigger] parts[k]).contains(id)
}

/// What holds of the parts that start below a cell.
spec fn are_so_far(
    g: Grid,
    open: Seq<bool>,
    parts: Seq<Seq<u32>>,
    labels: Seq<Option<u32>>,
    n: int,
) -> bool {
    &&& labels.len() == g.count()
    &&& forall|k: int|
        0 <= k < parts.len() ==> is_part(g, open, #[trigger] parts[k]) && parts[k][0] < n
    &&& forall|k: int, l: int|
        0 <= k < l < parts.len() ==> (#[trigger] parts[k])[0] < (#[trigger] parts[l])[0]
    &&& forall|id: int| 0 <= id < n && #[trigger] open[id] ==> labels[id] is Some
    &&& forall|id: int|
        0 <= id < labels.len() ==> match #[trigger] labels[id] {
            Some(k) => k < parts.len() && parts[k as int].contains(id as u32),
            None => in_none(parts, id as u32),
        }
}

/// A new part starts at a cell that no earlier part holds.
proof fn lemma_new_part(
    g: Grid,
    open: Seq<bool>,
    parts: Seq<Seq<u32>>,
    labels: Seq<Option<u32>>,
    labels2: Seq<Option<u32>>,
    seed: u32,
    order: Seq<u32>,
    links: Seq<(int, int)>,
)
    requires
        g.fits(),
        open.len() == g.count(),
        are_so_far(g, open, parts, labels, seed as int),
        seed < g.count(),
        open[seed as int],
        labels[seed as int] is None,
        parts.len() < u32::MAX,
        is_flood(g, open, seq![seed], order, links),
        labels2.len() == labels.len(),
        forall|id: int|
            0 <= id < labels.len() ==> #[trigger] labels2[id] == (if order.contains(id as u32) {
                Some(parts.len() as u32)
            } else {
                labels[id]
            }),
    ensures
        are_so_far(g, open, parts.push(order), labels2, seed + 1),
{
    let parts2 = parts.push(order);
    let n = parts.len() as int;
    assert(order.take(1)[0] == seed);
    assert forall|i: int| 0 <= i < order.len() implies order[0] <= #[trigger] order[i] by {
        let x = order[i] as int;
        if x < seed {
            if i > 0 {
                assert(open[order[i] as int]);
            }
            assert(labels[x] is Some);
            let k = labels[x].unwrap() as int;
            assert(parts[k].contains(x as u32));
            assert(order.contains(x as u32));
            law_flood_finds_what_is_linked(g, open, seed, order, links, x);
            lemma_in_part(g, open, parts[k], x);
            law_linked_is_an_equivalence(g, open, seed as int, x, x);
            law_linked_is_an_equivalence(g, open, parts[k][0] as int, x, seed as int);
            lemma_in_part(g, open, parts[k], seed as int);
            assert(!parts[k].contains(seed as int as u32));
        }
    }
    assert(is_part(g, open, order));
    assert forall|k: int| 0 <= k < parts2.len() implies is_part(g, open, #[trigger] parts2[k])
        && parts2[k][0] < seed + 1 by {
        if k < n {
            assert(parts2[k] == parts[k]);
        }
    }
    assert forall|k: int, l: int| 0 <= k < l < parts2.len() implies (#[trigger] parts2[k])[0] < (
    #[trigger] parts2[l])[0] by {
        assert(parts2[k] == parts[k]);
        if l < n {
            assert(parts2[l] == parts[l]);
        }
    }
    assert forall|id: int| 0 <= id < labels2.len() implies match #[trigger] labels2[id] {
        Some(k) => k < parts2.len() && parts2[k as int].contains(id as u32),
        None => in_none(parts2, id as u32),
    } by {
        if order.contains(id as u32) {
            assert(parts2[n] == order);
        } else {
            assert(labels2[id] == labels[id]);
            match labels[id] {
                Some(k) => {
                    assert(parts2[k as int] == parts[k as int]);
                },
                None => {
                    assert forall|k: int| 0 <= k < parts2.len() implies !(
                    #[trigger] parts2[k]).contains(id as u32) by {
                        if k < n {
                            assert(parts2[k] == parts[k]);
                        }
                    }
                },
            }
        }
    }
    assert forall|id: int| 0 <= id < seed + 1 && #[trigger] open[id] implies labels2[id] is Some by {
        if id == seed {
            assert(order[0] == seed);
            assert(order.contains(id as u32));
        } else {
            assert(labels[id] is Some);
        }
    }
}

impl LayeredWorld {
    /// Finds the parts of the open cells.
    pub fn parts(&self, open: &[bool]) -> (parts: Parts)
        requires
            self.is_laid_out(),
            open@.len() == self.grid().count(),
        ensures
            parts.are_of(self.grid(), open@),
            parts.parts@.len() <= self.grid().count(),
    {
        let ghost g = self.grid();
        let count: usize = self.cells.len();
        let mut parts: Vec<Vec<u32>> = Vec::new();
        let mut labels: Vec<Option<u32>> = self.unmarked();
        let mut blank: Vec<Option<u32>> = self.unmarked();
        let mut seed: u32 = 0;
        assert(are_so_far(g, open@, cells_of(parts@), labels@, 0));
        while (seed as usize) < count
            invariant
                self.is_laid_out(),
                g == self.grid(),
                open@.len() == g.count(),
                count == g.count(),
                seed <= count,
                is_blank(blank@, count as int),
                parts@.len() <= seed,
                are_so_far(g, open@, cells_of(parts@), labels@, seed as int),
            decreases count - seed,
        {
            if open[seed as usize] && labels[seed as usize].is_none() {
                let mut sources: Vec<u32> = Vec::new();
                sources.push(seed);
                assert(sources@ =~= seq![seed]);
                let flood = self.flood_with(open, sources.as_slice(), blank);
                let ghost links = choose|links: Seq<(int, int)>|
                    is_flood(g, open@, seq![seed], flood.order@, links) && #[trigger] flood.links(
                        links,
                        1,
                    );
                let ghost before = labels@;
                let label: u32 = parts.len() as u32;
                let order = flood.order;
                blank = flood.positions;
                let mut i: usize = 0;
                assert(order@.take(0) =~= Seq::<u32>::empty());
                while i < order.len()
                    invariant
                        count == g.count(),
                        count <= u32::MAX,
                        i <= order@.len(),
                        labels@.len() == count,
                        before.len() == count,
                        blank@.len() == count,
                        forall|k: int| 0 <= k < order@.len() ==> (#[trigger] order@[k]) < count,
                        forall|id: int|
                            0 <= id < count ==> match #[trigger] blank@[id] {
                                Some(k) => i <= k < order@.len() && order@[k as int] == id,
                                None => true,
                            },
                        forall|id: int|
                            0 <= id < count ==> #[trigger] labels@[id] == (if order@.take(
                                i as int,
                            ).contains(id as u32) {
                                Some(label)
                            } else {
                                before[id]
                            }),
                    decreases order.len() - i,
                {
                    let cell: usize = order[i] as usize;
                    labels.set(cell, Some(label));
                    blank.set(cell, None);
                    proof {
                        let t = order@.take(i as int);
                        let u = order@.take(i + 1);
                        assert(u =~= t.push(order@[i as int]));
                        assert forall|id: u32| #[trigger] u.contains(id) <==> t.contains(id) || id
                            == order@[i as int] by {
                            if t.contains(id) {
                                let m = choose|m: int| 0 <= m < t.len() && t[m] == id;
                                assert(u[m] == id);
                            }
                            if id == order@[i as int] {
                                assert(u[i as int] == id);
                            }
                        }
                    }
                    i += 1;
                }
                proof {
                    assert(order@.take(i as int) =~= order@);
                    lemma_new_part(
                        g,
                        open@,
                        cells_of(parts@),
                        before,
                        labels@,
                        seed,
                        order@,
                        links,
                    );
                    assert(cells_of(parts@.push(order)) =~= cells_of(parts@).push(order@));
                }
                parts.push(order);
            }
            proof {
                let list = cells_of(parts@);
                assert forall|k: int| 0 <= k < list.len() implies is_part(
                    g,
                    open@,
                    #[trigger] list[k],
                ) && list[k][0] < seed + 1 by {}
            }
            seed += 1;
        }
        let found = Parts { parts, labels };
        proof {
            let list = cells_of(found.parts@);
            assert forall|id: int| 0 <= id < g.count() && #[trigger] open@[id] implies exists|k: int|
                0 <= k < list.len() && (#[trigger] list[k]).contains(id as u32) by {
                let k = found.labels@[id].unwrap();
                assert(list[k as int].contains(id as u32));
            }
        }
        found
    }
}

} // verus!
