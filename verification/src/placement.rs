//! Placement of the players' starts in layered worlds.
use vstd::prelude::*;
use crate::axials::{ascending, AxialSet};
use crate::coord::Axial;
use crate::layers::{law_numbers_are_places, LayeredWorld, V2Manifest, WorldLayer};
use crate::patch::{ids_where, lemma_ids, lemma_more_ids, note, report, WorldPatch};
use crate::relief::clamped;
use crate::spawning::{
    are_gaps, farthest_free, is_nearest, is_outermost, lemma_not_all_taken, nearer, take_candidate,
};
use crate::text::{append_decimal, decimal, text};
use crate::world_pass::{some_beside, WorldPass};

verus! {

pub struct SpawnPass;

/// Where cells can be captured.
pub open spec fn capturable_mask(world: LayeredWorld) -> Seq<bool> {
    Seq::new(world.layers().len(), |id: int| world.layers()[id].gameplay.capturable)
}

/// Whether a player may start in a cell: it can be settled, and there is room to
/// expand.
pub open spec fn may_start(world: LayeredWorld) -> spec_fn(int) -> bool {
    |id: int|
        world.layers()[id].gameplay.capturable && world.layers()[id].gameplay.habitable
            && some_beside(world.grid(), capturable_mask(world), id)
}

pub open spec fn is_habitable(world: LayeredWorld) -> spec_fn(int) -> bool {
    |id: int| world.layers()[id].gameplay.habitable
}

/// The quotient, rounded up.
pub open spec fn rounded_up(n: int, d: int) -> int {
    (n + d - 1) / d
}

/// How many cells apart the sampled candidates are.
pub open spec fn stride(candidates: int, needed: int) -> int {
    let apart = rounded_up(candidates, clamped(needed * 64, 4_096, 65_536));
    if apart < 1 {
        1
    } else {
        apart
    }
}

/// Every so manieth element.
pub open spec fn sampled(s: Seq<u32>, step: int) -> Seq<u32> {
    Seq::new(rounded_up(s.len() as int, step) as nat, |i: int| s[i * step])
}

/// The candidates that starts are chosen from.
pub open spec fn pool(world: LayeredWorld) -> Seq<u32> {
    let n = world.grid().count();
    let needed = world.manifest.player_count as int;
    let all = ids_where(n, may_start(world));
    let few = sampled(all, stride(all.len() as int, needed));
    if few.len() < needed {
        ids_where(n, is_habitable(world))
    } else {
        few
    }
}

/// The places of some cells.
pub open spec fn places_of(world: LayeredWorld, ids: Seq<u32>) -> Set<Axial> {
    ids.map_values(|id: u32| world.grid().place(id as int)).to_set()
}

/// Where the first start is wanted.
pub open spec fn first_wanted(m: V2Manifest) -> Axial {
    Axial {
        q: (m.q_min + m.width as int / 4) as i32,
        r: (m.r_min + m.height as int / 2) as i32,
    }
}

/// Whether starts are spread out: the first is the nearest to where it is
/// wanted, each further one the farthest from those before.
pub open spec fn is_spread_out(among: Set<Axial>, wanted: Axial, starts: Seq<Axial>) -> bool {
    forall|i: int|
        0 <= i < starts.len() ==> if i == 0 {
            is_nearest(among, wanted, #[trigger] starts[i])
        } else {
            is_outermost(among, starts.take(i), starts[i])
        }
}

pub open spec fn start_outputs() -> Seq<WorldLayer> {
    seq![WorldLayer::Spawns]
}

/// Whether this patch places the starts.
pub open spec fn is_placed(world: LayeredWorld, p: WorldPatch) -> bool {
    let needed = world.manifest.player_count as int;
    &&& p.spawns matches Some(starts) && starts@.len() == (if needed < 1 {
        1
    } else {
        needed
    }) && is_spread_out(places_of(world, pool(world)), first_wanted(world.manifest), starts@)
    &&& p.report.tells(
        needed,
        seq![
            "sampled "@ + decimal(pool(world).len() as int)
                + " spawn candidates from a bounded pool"@,
        ],
    )
    &&& p.stays_within(start_outputs())
}

/// Why starts cannot be placed, if so.
pub open spec fn placement_fault(world: LayeredWorld) -> Option<Seq<char>> {
    let needed = world.manifest.player_count as int;
    let found = ids_where(world.grid().count(), may_start(world)).len() as int;
    if found < needed {
        Some(
            "spawn pass needs "@ + decimal(needed) + " habitable candidates; found "@ + decimal(
                found,
            ),
        )
    } else if found == 0 {
        Some("spawn pass has no candidates"@)
    } else {
        None
    }
}

/// Two placements of starts in one world agree.
pub proof fn law_placement_is_unique(
    among: Set<Axial>,
    wanted: Axial,
    starts: Seq<Axial>,
    starts2: Seq<Axial>,
)
    requires
        is_spread_out(among, wanted, starts),
        is_spread_out(among, wanted, starts2),
        starts.len() == starts2.len(),
    ensures
        starts == starts2,
{
    lemma_starts_agree(among, wanted, starts, starts2, starts.len() as int);
    assert(starts.take(starts.len() as int) =~= starts);
    assert(starts2.take(starts.len() as int) =~= starts2);
}

proof fn lemma_starts_agree(
    among: Set<Axial>,
    wanted: Axial,
    starts: Seq<Axial>,
    starts2: Seq<Axial>,
    n: int,
)
    requires
        is_spread_out(among, wanted, starts),
        is_spread_out(among, wanted, starts2),
        0 <= n <= starts.len(),
        n <= starts2.len(),
    ensures
        starts.take(n) == starts2.take(n),
    decreases n,
{
    if n == 0 {
        assert(starts.take(n) =~= starts2.take(n));
    } else {
        lemma_starts_agree(among, wanted, starts, starts2, n - 1);
        let a = starts[n - 1];
        let b = starts2[n - 1];
        if a != b {
            if n == 1 {
                assert(nearer(wanted, a, b));
                assert(nearer(wanted, b, a));
            } else {
                assert(is_outermost(among, starts.take(n - 1), a));
                assert(is_outermost(among, starts2.take(n - 1), b));
            }
        }
        assert(starts.take(n) =~= starts.take(n - 1).push(a));
        assert(starts2.take(n) =~= starts2.take(n - 1).push(b));
    }
}

/// Marks what can be captured.
fn mark_capturable(world: &LayeredWorld) -> (mask: Vec<bool>)
    ensures
        mask@ == capturable_mask(*world),
{
    let mut mask: Vec<bool> = Vec::new();
    let mut i: usize = 0;
    while i < world.cells.len()
        invariant
            i <= world.cells@.len(),
            mask@ =~= capturable_mask(*world).take(i as int),
        decreases world.cells.len() - i,
    {
        mask.push(world.cells[i].gameplay.capturable);
        i += 1;
    }
    assert(mask@ =~= capturable_mask(*world));
    mask
}

/// The cells that players may start in.
fn start_candidates(world: &LayeredWorld) -> (ids: Vec<u32>)
    requires
        world.is_laid_out(),
    ensures
        ids@ == ids_where(world.grid().count(), may_start(*world)),
{
    let mask = mark_capturable(world);
    let mut ids: Vec<u32> = Vec::new();
    let mut id: u32 = 0;
    while (id as usize) < world.cells.len()
        invariant
            world.is_laid_out(),
            id <= world.cells@.len(),
            mask@ == capturable_mask(*world),
            ids@ == ids_where(id as int, may_start(*world)),
        decreases world.cells.len() - id,
    {
        let gameplay = world.cells[id as usize].gameplay;
        if gameplay.capturable && gameplay.habitable && world.is_any_beside(mask.as_slice(), id) {
            ids.push(id);
        }
        id += 1;
    }
    ids
}

fn habitable_cells(world: &LayeredWorld) -> (ids: Vec<u32>)
    requires
        world.is_laid_out(),
    ensures
        ids@ == ids_where(world.grid().count(), is_habitable(*world)),
{
    let mut ids: Vec<u32> = Vec::new();
    let mut id: u32 = 0;
    while (id as usize) < world.cells.len()
        invariant
            world.is_laid_out(),
            id <= world.cells@.len(),
            ids@ == ids_where(id as int, is_habitable(*world)),
        decreases world.cells.len() - id,
    {
        if world.cells[id as usize].gameplay.habitable {
            ids.push(id);
        }
        id += 1;
    }
    ids
}

/// Takes every so manieth element.
fn sample(s: &Vec<u32>, step: usize) -> (few: Vec<u32>)
    requires
        step > 0,
        s@.len() <= u32::MAX,
        step <= s@.len() + 1,
    ensures
        few@ == sampled(s@, step as int),
{
    let ghost d = step as int;
    let mut few: Vec<u32> = Vec::new();
    let mut i: u64 = 0;
    assert(0 * d == 0) by (nonlinear_arith);
    while i < s.len() as u64
        invariant
            d == step,
            step > 0,
            s@.len() <= u32::MAX,
            step <= s@.len() + 1,
            i == few@.len() * d,
            i < s@.len() + d,
            forall|k: int| 0 <= k < few@.len() ==> #[trigger] few@[k] == s@[k * d],
        decreases s@.len() + step - i,
    {
        few.push(s[i as usize]);
        assert((few@.len() - 1) * d + d == few@.len() * d) by (nonlinear_arith);
        i += step as u64;
    }
    proof {
        let n = s@.len() as int;
        let m = few@.len() as int;
        assert(rounded_up(n, d) == m) by {
            vstd::arithmetic::div_mod::lemma_fundamental_div_mod_converse(
                n + d - 1,
                d,
                m,
                n + d - 1 - m * d,
            );
        }
        assert(few@ =~= sampled(s@, d));
    }
    few
}

fn stride_of(candidates: usize, needed: u16) -> (step: usize)
    requires
        candidates <= u32::MAX,
    ensures
        step == stride(candidates as int, needed as int),
        1 <= step,
        step <= candidates + 1,
{
    let wanted: u64 = needed as u64 * 64;
    let target: u64 = if wanted < 4_096 {
        4_096
    } else if wanted > 65_536 {
        65_536
    } else {
        wanted
    };
    let apart: u64 = (candidates as u64 + target - 1) / target;
    proof {
        assert(apart <= candidates) by (nonlinear_arith)
            requires
                apart == (candidates + target - 1) / target as int,
                target >= 1,
                candidates >= 0,
        ;
    }
    if apart < 1 {
        1
    } else {
        apart as usize
    }
}

/// How many samples there are.
proof fn lemma_samples(s: Seq<u32>, step: int)
    requires
        step > 0,
    ensures
        s.len() > 0 ==> sampled(s, step).len() > 0,
        sampled(s, step).len() * step <= s.len() + step - 1,
{
    let n = s.len() as int;
    let m = rounded_up(n, step);
    vstd::arithmetic::div_mod::lemma_fundamental_div_mod(n + step - 1, step);
    vstd::arithmetic::div_mod::lemma_mod_bound(n + step - 1, step);
    assert(m >= 0 && (n > 0 ==> m > 0) && m * step <= n + step - 1) by (nonlinear_arith)
        requires
            step * m <= n + step - 1,
            n + step - 1 < step * m + step,
            step > 0,
            n >= 0,
    ;
}

/// Every sample is one of the elements.
proof fn lemma_sample(s: Seq<u32>, step: int, i: int)
    requires
        step > 0,
        0 <= i < sampled(s, step).len(),
    ensures
        0 <= i * step < s.len(),
        sampled(s, step)[i] == s[i * step],
{
    lemma_samples(s, step);
    let n = s.len() as int;
    let m = sampled(s, step).len() as int;
    assert(0 <= i * step < n) by (nonlinear_arith)
        requires
            0 <= i < m,
            m * step <= n + step - 1,
            step > 0,
    ;
}

/// The places of some cells in ascending order.
fn places(world: &LayeredWorld, ids: &Vec<u32>) -> (listed: Vec<Axial>)
    requires
        world.is_laid_out(),
        forall|i: int| 0 <= i < ids@.len() ==> (#[trigger] ids@[i]) < world.grid().count(),
        forall|i: int, j: int| 0 <= i < j < ids@.len() ==> (#[trigger] ids@[i]) < (#[trigger] ids@[j]),
    ensures
        ascending(listed@),
        listed@.to_set() == places_of(*world, ids@),
        listed@.len() == ids@.len(),
{
    let ghost g = world.grid();
    let ghost all = ids@.map_values(|id: u32| g.place(id as int));
    let mut set = AxialSet::new();
    let mut i: usize = 0;
    while i < ids.len()
        invariant
            world.is_laid_out(),
            g == world.grid(),
            i <= ids@.len(),
            forall|i: int| 0 <= i < ids@.len() ==> (#[trigger] ids@[i]) < g.count(),
            all == ids@.map_values(|id: u32| g.place(id as int)),
            set@ == all.take(i as int).to_set(),
        decreases ids.len() - i,
    {
        match world.coordinate(ids[i]) {
            Some(c) => {
                set.insert(c);
                proof {
                    assert(all.take(i + 1) =~= all.take(i as int).push(c));
                    crate::axials::lemma_to_set_push(all.take(i as int), c);
                }
            },
            None => {
                vstd::pervasive::unreached()
            },
        }
        i += 1;
    }
    let listed = set.to_vec();
    proof {
        assert(all.take(i as int) =~= all);
        assert forall|a: int, b: int|
            0 <= a < all.len() && 0 <= b < all.len() && a != b implies all[a] != all[b] by {
            law_numbers_are_places(g, all[a], ids@[a] as int);
            law_numbers_are_places(g, all[b], ids@[b] as int);
            if a < b {
                assert(ids@[a] < ids@[b]);
            } else {
                assert(ids@[b] < ids@[a]);
            }
        }
        all.unique_seq_to_set();
        crate::axials::lemma_ascending_no_duplicates(listed@);
        listed@.unique_seq_to_set();
    }
    listed
}

/// Spreads a number of starts out over candidates.
fn spread_out(candidates: &Vec<Axial>, wanted: Axial, needed: usize) -> (starts: Vec<Axial>)
    requires
        ascending(candidates@),
        1 <= needed <= candidates@.len(),
    ensures
        starts@.len() == needed,
        is_spread_out(candidates@.to_set(), wanted, starts@),
{
    let n: usize = candidates.len();
    let ghost among = candidates@.to_set();
    let mut taken: Vec<bool> = Vec::new();
    let mut gaps: Vec<u64> = Vec::new();
    let mut first: usize = 0;
    let mut i: usize = 0;
    while i < n
        invariant
            i <= n,
            n == candidates@.len(),
            n > 0,
            first < n,
            i == 0 ==> first == 0,
            i > 0 ==> first < i,
            taken@.len() == i,
            gaps@.len() == i,
            forall|k: int| 0 <= k < i ==> !#[trigger] taken@[k],
            forall|k: int| 0 <= k < i ==> #[trigger] gaps@[k] == u64::MAX,
            forall|k: int|
                0 <= k < i && #[trigger] candidates@[k] != candidates@[first as int] ==> nearer(
                    wanted,
                    candidates@[first as int],
                    candidates@[k],
                ),
        decreases n - i,
    {
        let c = candidates[i];
        let best = candidates[first];
        let distance: u64 = c.distance(wanted);
        let closest: u64 = best.distance(wanted);
        if distance < closest || (distance == closest && (c.q < best.q || (c.q == best.q && c.r
            < best.r))) {
            first = i;
        }
        taken.push(false);
        gaps.push(u64::MAX);
        i += 1;
    }
    let mut starts: Vec<Axial> = Vec::new();
    proof {
        assert(are_gaps(candidates@, starts@, taken@, gaps@));
        let c = candidates@[first as int];
        assert(among.contains(c));
        assert forall|d: Axial| #[trigger] among.contains(d) && d != c implies nearer(
            wanted,
            c,
            d,
        ) by {
            let k = choose|k: int| 0 <= k < candidates@.len() && candidates@[k] == d;
            assert(nearer(wanted, c, candidates@[k]));
        }
    }
    take_candidate(candidates, first, &mut starts, &mut taken, &mut gaps);
    while starts.len() < needed
        invariant
            ascending(candidates@),
            among == candidates@.to_set(),
            1 <= starts@.len() <= needed <= candidates@.len(),
            are_gaps(candidates@, starts@, taken@, gaps@),
            is_spread_out(among, wanted, starts@),
        decreases needed - starts.len(),
    {
        let next: usize = match farthest_free(candidates, &starts, &taken, &gaps) {
            Some(x) => x,
            None => {
                proof {
                    lemma_not_all_taken(candidates@, starts@, taken@);
                }
                vstd::pervasive::unreached()
            },
        };
        let ghost before = starts@;
        take_candidate(candidates, next, &mut starts, &mut taken, &mut gaps);
        proof {
            assert forall|i: int| 0 <= i < starts@.len() implies if i == 0 {
                is_nearest(among, wanted, #[trigger] starts@[i])
            } else {
                is_outermost(among, starts@.take(i), starts@[i])
            } by {
                assert(starts@.take(i) =~= before.take(i));
                if i < before.len() {
                    assert(starts@[i] == before[i]);
                } else {
                    assert(before.take(i) =~= before);
                }
            }
        }
    }
    starts
}

impl WorldPass for SpawnPass {
    open spec fn title(&self) -> Seq<char> {
        "spawns"@
    }

    open spec fn inputs(&self) -> Seq<WorldLayer> {
        seq![WorldLayer::Gameplay]
    }

    open spec fn outputs(&self) -> Seq<WorldLayer> {
        start_outputs()
    }

    open spec fn owes(
        &self,
        world: LayeredWorld,
        pass_seed: u64,
        outcome: Result<WorldPatch, String>,
    ) -> bool {
        match outcome {
            Ok(patch) => placement_fault(world) is None && is_placed(world, patch),
            Err(message) => placement_fault(world) == Some(message@),
        }
    }

    fn name(&self) -> (name: &'static str) {
        "spawns"
    }

    fn reads(&self) -> (layers: Vec<WorldLayer>) {
        vec![WorldLayer::Gameplay]
    }

    fn writes(&self) -> (layers: Vec<WorldLayer>) {
        vec![WorldLayer::Spawns]
    }

    fn run(&self, world: &LayeredWorld, pass_seed: u64) -> (outcome: Result<WorldPatch, String>) {
        let needed: u16 = world.manifest.player_count;
        let ghost n = world.grid().count();
        let all = start_candidates(world);
        let found: usize = all.len();
        proof {
            lemma_ids(n, may_start(*world));
            lemma_ids(n, is_habitable(*world));
            lemma_more_ids(n, may_start(*world), is_habitable(*world));
        }
        if found < needed as usize {
            let mut message = text("spawn pass needs ");
            append_decimal(&mut message, needed as u64);
            message.append(" habitable candidates; found ");
            append_decimal(&mut message, found as u64);
            return Err(message);
        }
        if found == 0 {
            return Err(text("spawn pass has no candidates"));
        }
        let step: usize = stride_of(found, needed);
        proof {
            lemma_samples(all@, step as int);
        }
        let few = sample(&all, step);
        let ids: Vec<u32> = if few.len() < needed as usize {
            habitable_cells(world)
        } else {
            few
        };
        assert(ids@ == pool(*world));
        proof {
            assert forall|i: int| 0 <= i < ids@.len() implies (#[trigger] ids@[i]) < n by {
                if ids@ == sampled(all@, step as int) {
                    lemma_sample(all@, step as int, i);
                }
            }
            assert forall|i: int, j: int| 0 <= i < j < ids@.len() implies (#[trigger] ids@[i]) < (
            #[trigger] ids@[j]) by {
                if ids@ == sampled(all@, step as int) {
                    lemma_sample(all@, step as int, i);
                    lemma_sample(all@, step as int, j);
                    assert(i * step < j * step) by (nonlinear_arith)
                        requires
                            i < j,
                            step > 0,
                    ;
                }
            }
        }
        let candidates = places(world, &ids);
        let wanted = Axial::new(
            (world.manifest.q_min as i64 + (world.manifest.width / 4) as i64) as i32,
            (world.manifest.r_min as i64 + (world.manifest.height / 2) as i64) as i32,
        );
        let count: usize = if needed < 1 {
            1
        } else {
            needed as usize
        };
        let starts = spread_out(&candidates, wanted, count);
        assert(start_outputs()[0] == WorldLayer::Spawns);
        Ok(
            WorldPatch {
                spawns: Some(starts),
                report: report(
                    needed as usize,
                    note("sampled ", ids.len(), " spawn candidates from a bounded pool"),
                ),
                ..WorldPatch::default()
            },
        )
    }
}

} // verus!
