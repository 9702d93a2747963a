//! Pipelines of passes that make layered worlds.
use vstd::prelude::*;
use vstd::utf8::encode_utf8;
use crate::chunks::is_recounted;
use crate::coast::{is_left, is_mended, Coast, CoastConnectivityPass};
use crate::continent::ContinentPass;
use crate::coord::Axial;
use crate::fingerprint::{content_hash, header_words, world_hash};
use crate::gameplay::{is_mainland, is_playable, GameplayPass};
use crate::hydrology::{is_watered, HydrologyPass, Rivers};
use crate::landcover::{BiomePass, LandformPass};
use crate::layers::{
    is_empty_world, spec_fault, LayeredWorld, PassProvenance, V2Manifest, WorldLayer, WorldSpec,
    GENERATOR_VERSION,
};
use crate::noise::{pass_seed, seed_after};
use crate::patch::{
    apply_patch, is_applied, stray_cell, stray_text, PassReport, WorldPatch,
};
use crate::placement::SpawnPass;
use crate::relief::{are_centers, is_hollowed, LakeBasinPass, MountainPass};
use crate::text::text;
use crate::world_check::{validate, world_fault};
use crate::world_pass::WorldPass;

verus! {

/// A pass of a pipeline: a standard one, or one of the caller's.
pub enum Stage<Q> {
    Continent(ContinentPass),
    Coast(CoastConnectivityPass),
    Mountains(MountainPass),
    Basins(LakeBasinPass),
    Hydrology(HydrologyPass),
    Landforms(LandformPass),
    Biomes(BiomePass),
    Gameplay(GameplayPass),
    Spawns(SpawnPass),
    Custom(Q),
}

impl<Q: WorldPass> WorldPass for Stage<Q> {
    open spec fn title(&self) -> Seq<char> {
        match *self {
            Stage::Continent(pass) => pass.title(),
            Stage::Coast(pass) => pass.title(),
            Stage::Mountains(pass) => pass.title(),
            Stage::Basins(pass) => pass.title(),
            Stage::Hydrology(pass) => pass.title(),
            Stage::Landforms(pass) => pass.title(),
            Stage::Biomes(pass) => pass.title(),
            Stage::Gameplay(pass) => pass.title(),
            Stage::Spawns(pass) => pass.title(),
            Stage::Custom(pass) => pass.title(),
        }
    }

    open spec fn inputs(&self) -> Seq<WorldLayer> {
        match *self {
            Stage::Continent(pass) => pass.inputs(),
            Stage::Coast(pass) => pass.inputs(),
            Stage::Mountains(pass) => pass.inputs(),
            Stage::Basins(pass) => pass.inputs(),
            Stage::Hydrology(pass) => pass.inputs(),
            Stage::Landforms(pass) => pass.inputs(),
            Stage::Biomes(pass) => pass.inputs(),
            Stage::Gameplay(pass) => pass.inputs(),
            Stage::Spawns(pass) => pass.inputs(),
            Stage::Custom(pass) => pass.inputs(),
        }
    }

    open spec fn outputs(&self) -> Seq<WorldLayer> {
        match *self {
            Stage::Continent(pass) => pass.outputs(),
            Stage::Coast(pass) => pass.outputs(),
            Stage::Mountains(pass) => pass.outputs(),
            Stage::Basins(pass) => pass.outputs(),
            Stage::Hydrology(pass) => pass.outputs(),
            Stage::Landforms(pass) => pass.outputs(),
            Stage::Biomes(pass) => pass.outputs(),
            Stage::Gameplay(pass) => pass.outputs(),
            Stage::Spawns(pass) => pass.outputs(),
            Stage::Custom(pass) => pass.outputs(),
        }
    }

    open spec fn owes(
        &self,
        world: LayeredWorld,
        pass_seed: u64,
        outcome: Result<WorldPatch, String>,
    ) -> bool {
        match *self {
            Stage::Continent(pass) => pass.owes(world, pass_seed, outcome),
            Stage::Coast(pass) => pass.owes(world, pass_seed, outcome),
            Stage::Mountains(pass) => pass.owes(world, pass_seed, outcome),
            Stage::Basins(pass) => pass.owes(world, pass_seed, outcome),
            Stage::Hydrology(pass) => pass.owes(world, pass_seed, outcome),
            Stage::Landforms(pass) => pass.owes(world, pass_seed, outcome),
            Stage::Biomes(pass) => pass.owes(world, pass_seed, outcome),
            Stage::Gameplay(pass) => pass.owes(world, pass_seed, outcome),
            Stage::Spawns(pass) => pass.owes(world, pass_seed, outcome),
            Stage::Custom(pass) => pass.owes(world, pass_seed, outcome),
        }
    }

    fn name(&self) -> (name: &'static str) {
        match self {
            Stage::Continent(pass) => pass.name(),
            Stage::Coast(pass) => pass.name(),
            Stage::Mountains(pass) => pass.name(),
            Stage::Basins(pass) => pass.name(),
            Stage::Hydrology(pass) => pass.name(),
            Stage::Landforms(pass) => pass.name(),
            Stage::Biomes(pass) => pass.name(),
            Stage::Gameplay(pass) => pass.name(),
            Stage::Spawns(pass) => pass.name(),
            Stage::Custom(pass) => pass.name(),
        }
    }

    fn reads(&self) -> (layers: Vec<WorldLayer>) {
        match self {
            Stage::Continent(pass) => pass.reads(),
            Stage::Coast(pass) => pass.reads(),
            Stage::Mountains(pass) => pass.reads(),
            Stage::Basins(pass) => pass.reads(),
            Stage::Hydrology(pass) => pass.reads(),
            Stage::Landforms(pass) => pass.reads(),
            Stage::Biomes(pass) => pass.reads(),
            Stage::Gameplay(pass) => pass.reads(),
            Stage::Spawns(pass) => pass.reads(),
            Stage::Custom(pass) => pass.reads(),
        }
    }

    fn writes(&self) -> (layers: Vec<WorldLayer>) {
        match self {
            Stage::Continent(pass) => pass.writes(),
            Stage::Coast(pass) => pass.writes(),
            Stage::Mountains(pass) => pass.writes(),
            Stage::Basins(pass) => pass.writes(),
            Stage::Hydrology(pass) => pass.writes(),
            Stage::Landforms(pass) => pass.writes(),
            Stage::Biomes(pass) => pass.writes(),
            Stage::Gameplay(pass) => pass.writes(),
            Stage::Spawns(pass) => pass.writes(),
            Stage::Custom(pass) => pass.writes(),
        }
    }

    fn run(&self, world: &LayeredWorld, pass_seed: u64) -> (outcome: Result<WorldPatch, String>) {
        match self {
            Stage::Continent(pass) => pass.run(world, pass_seed),
            Stage::Coast(pass) => pass.run(world, pass_seed),
            Stage::Mountains(pass) => pass.run(world, pass_seed),
            Stage::Basins(pass) => pass.run(world, pass_seed),
            Stage::Hydrology(pass) => pass.run(world, pass_seed),
            Stage::Landforms(pass) => pass.run(world, pass_seed),
            Stage::Biomes(pass) => pass.run(world, pass_seed),
            Stage::Gameplay(pass) => pass.run(world, pass_seed),
            Stage::Spawns(pass) => pass.run(world, pass_seed),
            Stage::Custom(pass) => pass.run(world, pass_seed),
        }
    }
}

/// The shapes that a world's relief takes: how far each cell is lifted, and how
/// deep basins are by the distance from their centers.
pub struct Relief {
    pub uplift: Vec<i16>,
    pub depths: Vec<i16>,
}

pub struct WorldPipeline<Q> {
    pub passes: Vec<Stage<Q>>,
}

/// The standard passes in their order.
pub open spec fn standard_stages<Q>(relief: Relief) -> Seq<Stage<Q>> {
    seq![
        Stage::Continent(ContinentPass),
        Stage::Coast(CoastConnectivityPass),
        Stage::Mountains(MountainPass { uplift: relief.uplift }),
        Stage::Basins(LakeBasinPass { depths: relief.depths }),
        Stage::Hydrology(HydrologyPass),
        Stage::Landforms(LandformPass),
        Stage::Biomes(BiomePass),
        Stage::Gameplay(GameplayPass),
        Stage::Spawns(SpawnPass),
    ]
}

/// The seed of a pass with a title.
pub open spec fn stage_seed(root: u64, title: Seq<char>) -> u64 {
    seed_after(root, encode_utf8(title))
}

/// Whether a record tells of a pass.
pub open spec fn records<Q: WorldPass>(p: PassProvenance, stage: Stage<Q>, root: u64) -> bool {
    &&& p.name@ == stage.title()
    &&& p.seed == stage_seed(root, stage.title())
    &&& p.reads@ == stage.inputs()
    &&& p.writes@ == stage.outputs()
}

/// Whether a pass turns one world into another by a patch.
pub open spec fn is_stage<Q: WorldPass>(
    stage: Stage<Q>,
    root: u64,
    before: LayeredWorld,
    patch: WorldPatch,
    after: LayeredWorld,
) -> bool {
    &&& stage.owes(before, stage_seed(root, stage.title()), Ok(patch))
    &&& stray_cell(patch, before.layers().len() as int) is None
    &&& after.manifest.pipeline@.len() == before.manifest.pipeline@.len() + 1
    &&& after.manifest.pipeline@.drop_last() == before.manifest.pipeline@
    &&& records(after.manifest.pipeline@.last(), stage, root)
    &&& is_applied(
        before,
        patch,
        LayeredWorld {
            manifest: V2Manifest { pipeline: before.manifest.pipeline, ..after.manifest },
            ..after
        },
    )
}

/// Whether worlds and patches are those of the first passes.
pub open spec fn is_progress<Q: WorldPass>(
    stages: Seq<Stage<Q>>,
    spec: WorldSpec,
    worlds: Seq<LayeredWorld>,
    patches: Seq<WorldPatch>,
) -> bool {
    &&& patches.len() <= stages.len()
    &&& worlds.len() == patches.len() + 1
    &&& is_empty_world(worlds[0], spec)
    &&& forall|i: int|
        0 <= i < patches.len() ==> is_stage(
            stages[i],
            spec.seed,
            worlds[i],
            #[trigger] patches[i],
            worlds[i + 1],
        )
}

/// Whether a world is another with its counts and its content hash.
pub open spec fn is_sealed(before: LayeredWorld, after: LayeredWorld) -> bool {
    &&& after.layers() == before.layers()
    &&& after.edges == before.edges
    &&& after.manifest.content_hash == world_hash(before)
    &&& is_recounted(
        V2Manifest { content_hash: after.manifest.content_hash, ..before.manifest },
        after.manifest,
        before.layers(),
    )
}

/// Whether these are the reports of passes.
pub open spec fn are_reports<Q: WorldPass>(
    stages: Seq<Stage<Q>>,
    patches: Seq<WorldPatch>,
    reports: Seq<PassReport>,
) -> bool {
    &&& reports.len() == patches.len()
    &&& forall|i: int|
        0 <= i < reports.len() ==> (#[trigger] reports[i]).name@ == stages[i].title() && reports[i]
            == (PassReport { name: reports[i].name, ..patches[i].report })
}

/// Whether this world and these reports are what passes make of a valid world
/// spec.
pub open spec fn is_made<Q: WorldPass>(
    stages: Seq<Stage<Q>>,
    spec: WorldSpec,
    world: LayeredWorld,
    reports: Seq<PassReport>,
) -> bool {
    &&& spec_fault(spec) is None
    &&& exists|worlds: Seq<LayeredWorld>, patches: Seq<WorldPatch>| #[trigger]
        is_progress(stages, spec, worlds, patches) && patches.len() == stages.len() && is_sealed(
            worlds.last(),
            world,
        ) && are_reports(stages, patches, reports)
}

/// Whether a pass stops at a world with a message: it fails, or it writes
/// outside the world.
pub open spec fn stops<Q: WorldPass>(
    stage: Stage<Q>,
    root: u64,
    world: LayeredWorld,
    message: String,
) -> bool {
    let seed = stage_seed(root, stage.title());
    ||| stage.owes(world, seed, Err(message))
    ||| exists|patch: WorldPatch| #[trigger]
        stage.owes(world, seed, Ok(patch)) && (stray_cell(patch, world.layers().len() as int)
            matches Some(id) && message@ == stray_text(id))
}

/// Whether passes fail on a world spec with a message.
pub open spec fn is_failed<Q: WorldPass>(
    stages: Seq<Stage<Q>>,
    spec: WorldSpec,
    message: String,
) -> bool {
    ||| spec_fault(spec) == Some(message@)
    ||| spec_fault(spec) is None && exists|worlds: Seq<LayeredWorld>, patches: Seq<WorldPatch>|
        #[trigger]
        is_progress(stages, spec, worlds, patches) && patches.len() < stages.len() && stops(
            stages[patches.len() as int],
            spec.seed,
            worlds.last(),
            message,
        )
}

impl<Q: WorldPass> Default for WorldPipeline<Q> {
    fn default() -> (pipeline: WorldPipeline<Q>)
        ensures
            pipeline.passes@ == Seq::<Stage<Q>>::empty(),
    {
        WorldPipeline { passes: Vec::new() }
    }
}

impl<Q: WorldPass> WorldPipeline<Q> {
    pub fn new() -> (pipeline: WorldPipeline<Q>)
        ensures
            pipeline.passes@ == Seq::<Stage<Q>>::empty(),
    {
        WorldPipeline { passes: Vec::new() }
    }

    /// The standard passes, with the relief of the world to be made.
    pub fn default_v2(relief: Relief) -> (pipeline: WorldPipeline<Q>)
        ensures
            pipeline.passes@ == standard_stages::<Q>(relief),
    {
        let mut passes: Vec<Stage<Q>> = Vec::new();
        passes.push(Stage::Continent(ContinentPass));
        passes.push(Stage::Coast(CoastConnectivityPass));
        passes.push(Stage::Mountains(MountainPass { uplift: relief.uplift }));
        passes.push(Stage::Basins(LakeBasinPass { depths: relief.depths }));
        passes.push(Stage::Hydrology(HydrologyPass));
        passes.push(Stage::Landforms(LandformPass));
        passes.push(Stage::Biomes(BiomePass));
        passes.push(Stage::Gameplay(GameplayPass));
        passes.push(Stage::Spawns(SpawnPass));
        let pipeline = WorldPipeline { passes };
        assert(pipeline.passes@ =~= standard_stages::<Q>(relief));
        pipeline
    }

    pub fn with_pass(self, pass: Q) -> (pipeline: WorldPipeline<Q>)
        ensures
            pipeline.passes@ == self.passes@.push(Stage::Custom(pass)),
    {
        let WorldPipeline { passes } = self;
        let mut passes = passes;
        passes.push(Stage::Custom(pass));
        WorldPipeline { passes }
    }

    pub fn push_pass(&mut self, pass: Q)
        ensures
            final(self).passes@ == old(self).passes@.push(Stage::Custom(pass)),
    {
        self.passes.push(Stage::Custom(pass));
    }

    /// Executes every pass in order and records pass provenance in the manifest.
    ///
    /// An error tells of an invalid world spec, a failed pass, or an
    /// out-of-bounds patch write.
    pub fn run(&self, spec: &WorldSpec) -> (made: Result<(LayeredWorld, Vec<PassReport>), String>)
        ensures
            match made {
                Ok((world, reports)) => {
                    &&& is_made(self.passes@, *spec, world, reports@)
                    &&& world.is_laid_out()
                    &&& world.manifest.chunk_size == spec.chunk_size
                },
                Err(message) => is_failed(self.passes@, *spec, message),
            },
    {
        match spec.validate() {
            Ok(_) => {},
            Err(message) => {
                return Err(message);
            },
        }
        let ghost stages = self.passes@;
        let mut world = LayeredWorld::empty(spec);
        let mut reports: Vec<PassReport> = Vec::new();
        let ghost mut worlds: Seq<LayeredWorld> = seq![world];
        let ghost mut patches: Seq<WorldPatch> = Seq::empty();
        let mut i: usize = 0;
        while i < self.passes.len()
            invariant
                stages == self.passes@,
                spec_fault(*spec) is None,
                i <= stages.len(),
                patches.len() == i,
                is_progress(stages, *spec, worlds, patches),
                worlds.last() == world,
                world.is_laid_out(),
                world.manifest.chunk_size == spec.chunk_size,
                are_reports(stages, patches, reports@),
            decreases self.passes.len() - i,
        {
            let pass = &self.passes[i];
            let name = pass.name();
            let seed: u64 = pass_seed(spec.seed, name);
            assert(seed == stage_seed(spec.seed, stages[i as int].title()));
            let patch = match pass.run(&world, seed) {
                Ok(patch) => patch,
                Err(message) => {
                    assert(stops(stages[i as int], spec.seed, worlds.last(), message));
                    return Err(message);
                },
            };
            let ghost given = patch;
            let ghost before = world;
            match apply_patch(world, patch) {
                Ok((after, report)) => {
                    world = after;
                    world.manifest.pipeline.push(
                        PassProvenance {
                            name: text(name),
                            seed,
                            reads: pass.reads(),
                            writes: pass.writes(),
                        },
                    );
                    let mut report = report;
                    report.name = text(name);
                    reports.push(report);
                    proof {
                        let was_worlds = worlds;
                        let was_patches = patches;
                        assert(world.manifest.pipeline@.drop_last()
                            =~= after.manifest.pipeline@);
                        lemma_stage(stages[i as int], spec.seed, before, given, after, world);
                        worlds = worlds.push(world);
                        patches = patches.push(given);
                        assert forall|k: int| 0 <= k < patches.len() implies is_stage(
                            stages[k],
                            spec.seed,
                            worlds[k],
                            #[trigger] patches[k],
                            worlds[k + 1],
                        ) by {
                            if k < was_patches.len() {
                                assert(patches[k] == was_patches[k]);
                            }
                        }
                        assert forall|k: int| 0 <= k < reports@.len() implies (
                        #[trigger] reports@[k]).name@ == stages[k].title() && reports@[k] == (
                        PassReport { name: reports@[k].name, ..patches[k].report }) by {
                            if k < was_patches.len() {
                                assert(patches[k] == was_patches[k]);
                            }
                        }
                    }
                },
                Err(message) => {
                    assert(stages[i as int].owes(before, seed, Ok(given)));
                    assert(stops(stages[i as int], spec.seed, worlds.last(), message));
                    return Err(message);
                },
            }
            i += 1;
        }
        let ghost last = world;
        let hash: u64 = content_hash(&world);
        world.refresh_manifest_counts();
        world.manifest.content_hash = hash;
        proof {
            assert(is_sealed(last, world));
            assert(is_made(stages, *spec, world, reports@));
        }
        Ok((world, reports))
    }
}

/// Whether this is why no world can be made by the standard passes: they fail, or
/// what they make is not valid.
pub open spec fn is_refused(spec: WorldSpec, relief: Relief, message: String) -> bool {
    let stages = standard_stages::<ContinentPass>(relief);
    ||| is_failed(stages, spec, message)
    ||| exists|world: LayeredWorld, reports: Seq<PassReport>| #[trigger]
        is_made(stages, spec, world, reports) && world_fault(world) == Some(message@)
}

/// Generates a layered map with the standard version-two pass sequence.
///
/// The error is that of a pass or of the validation, when a valid layered map
/// cannot be built.
pub fn generate(spec: &WorldSpec, relief: Relief) -> (made: Result<LayeredWorld, String>)
    ensures
        match made {
            Ok(world) => {
                &&& exists|reports: Seq<PassReport>| #[trigger]
                    is_made(
                        standard_stages::<ContinentPass>(relief),
                        *spec,
                        world,
                        reports,
                    )
                &&& world_fault(world) is None
                &&& world.is_laid_out()
                &&& world.manifest.chunk_size > 0
            },
            Err(message) => is_refused(*spec, relief, message),
        },
{
    let pipeline = WorldPipeline::<ContinentPass>::default_v2(relief);
    match pipeline.run(spec) {
        Ok((world, reports)) => {
            assert(is_made(
                standard_stages::<ContinentPass>(relief),
                *spec,
                world,
                reports@,
            ));
            match validate(&world) {
                Ok(_) => Ok(world),
                Err(message) => Err(message),
            }
        },
        Err(message) => Err(message),
    }
}

/// What passes make carries the frame of its world spec, and records every pass
/// in its order.
pub proof fn law_made_worlds_tell_their_making<Q: WorldPass>(
    stages: Seq<Stage<Q>>,
    spec: WorldSpec,
    world: LayeredWorld,
    reports: Seq<PassReport>,
)
    requires
        is_made(stages, spec, world, reports),
    ensures
        world.manifest.name@ == spec.name@,
        world.manifest.generator_version == GENERATOR_VERSION,
        world.manifest.width == spec.width,
        world.manifest.height == spec.height,
        world.manifest.seed == spec.seed,
        world.manifest.player_count == spec.player_count,
        world.manifest.chunk_size == spec.chunk_size,
        world.manifest.macro_cell_size == spec.macro_cell_size,
        world.manifest.parameters == spec.parameters,
        world.manifest.pipeline@.len() == stages.len(),
        forall|i: int|
            0 <= i < stages.len() ==> records(
                #[trigger] world.manifest.pipeline@[i],
                stages[i],
                spec.seed,
            ),
{
    let (worlds, patches) = choose|worlds: Seq<LayeredWorld>, patches: Seq<WorldPatch>| #[trigger]
        is_progress(stages, spec, worlds, patches) && patches.len() == stages.len() && is_sealed(
            worlds.last(),
            world,
        ) && are_reports(stages, patches, reports);
    lemma_progress_keeps_the_frame(stages, spec, worlds, patches, patches.len() as int);
}

proof fn lemma_progress_keeps_the_frame<Q: WorldPass>(
    stages: Seq<Stage<Q>>,
    spec: WorldSpec,
    worlds: Seq<LayeredWorld>,
    patches: Seq<WorldPatch>,
    n: int,
)
    requires
        is_progress(stages, spec, worlds, patches),
        0 <= n <= patches.len(),
    ensures
        ({
            let m = worlds[n].manifest;
            &&& m.name@ == spec.name@
            &&& m.generator_version == GENERATOR_VERSION
            &&& m.width == spec.width
            &&& m.height == spec.height
            &&& m.seed == spec.seed
            &&& m.player_count == spec.player_count
            &&& m.chunk_size == spec.chunk_size
            &&& m.macro_cell_size == spec.macro_cell_size
            &&& m.parameters == spec.parameters
            &&& m.pipeline@.len() == n
            &&& forall|i: int|
                0 <= i < n ==> records(#[trigger] m.pipeline@[i], stages[i], spec.seed)
        }),
    decreases n,
{
    if n > 0 {
        let k = n - 1;
        lemma_progress_keeps_the_frame(stages, spec, worlds, patches, k);
        let patch = patches[k];
        assert(is_stage(stages[k], spec.seed, worlds[k], patch, worlds[k + 1]));
        let r = worlds[n].manifest.pipeline@;
        assert forall|i: int| 0 <= i < n implies records(#[trigger] r[i], stages[i], spec.seed) by {
            if i < k {
                assert(r[i] == r.drop_last()[i]);
            }
        }
    }
}

/// The standard passes are the continent, the coast, mountains, lake basins,
/// hydrology, landforms, biomes, gameplay and spawns, in this order.
pub proof fn law_standard_passes_come_in_order(relief: Relief)
    ensures
        ({
            let stages = standard_stages::<ContinentPass>(relief);
            &&& stages.len() == 9
            &&& stages[0].title() == "continent"@
            &&& stages[1].title() == "coast-connectivity"@
            &&& stages[2].title() == "mountains"@
            &&& stages[3].title() == "lake-basins"@
            &&& stages[4].title() == "hydrology"@
            &&& stages[5].title() == "landforms"@
            &&& stages[6].title() == "biomes"@
            &&& stages[7].title() == "gameplay"@
            &&& stages[8].title() == "spawns"@
        }),
{
}

/// The content hash that passes seal a world with is the hash of the sealed
/// world.
pub proof fn law_sealed_worlds_keep_their_hash(before: LayeredWorld, after: LayeredWorld)
    requires
        is_sealed(before, after),
    ensures
        after.manifest.content_hash == world_hash(after),
{
    assert(header_words(before) =~= header_words(after));
}

/// A pass touches the layers that it declares and leaves the rest: the standard
/// passes write no others.
pub proof fn law_standard_passes_stay_within(
    relief: Relief,
    i: int,
    world: LayeredWorld,
    seed: u64,
    patch: WorldPatch,
)
    requires
        0 <= i < 9,
        standard_stages::<ContinentPass>(relief)[i].owes(world, seed, Ok(patch)),
    ensures
        patch.stays_within(standard_stages::<ContinentPass>(relief)[i].outputs()),
{
    let stage = standard_stages::<ContinentPass>(relief)[i];
    match stage {
        Stage::Coast(pass) => {
            if exists|parts: Seq<Seq<u32>>| #[trigger] is_left(world, parts, patch) {
                let parts = choose|parts: Seq<Seq<u32>>| #[trigger] is_left(world, parts, patch);
                assert(is_left(world, parts, patch));
            } else {
                let coast = choose|coast: Coast|
                    coast.parts.len() > 1 && #[trigger] is_mended(world, coast, patch);
                assert(is_mended(world, coast, patch));
            }
        },
        Stage::Basins(pass) => {
            let centers = choose|centers: Seq<Axial>|
                are_centers(world, seed, centers) && #[trigger] is_hollowed(
                    world,
                    pass.depths@,
                    centers,
                    patch,
                );
            assert(is_hollowed(world, pass.depths@, centers, patch));
        },
        Stage::Hydrology(pass) => {
            let (rivers, parts, labels) = choose|
                rivers: Rivers,
                parts: Seq<Seq<u32>>,
                labels: Seq<Option<u32>>,
            | #[trigger]
                is_watered(world, seed, rivers, parts, labels, patch);
            assert(is_watered(world, seed, rivers, parts, labels, patch));
        },
        Stage::Gameplay(pass) => {
            let (parts, k) = choose|parts: Seq<Seq<u32>>, k: int| #[trigger]
                is_mainland(world, parts, k) && is_playable(world, parts[k], patch);
            assert(is_playable(world, parts[k], patch));
        },
        _ => {},
    }
}

proof fn lemma_stage<Q: WorldPass>(
    stage: Stage<Q>,
    root: u64,
    before: LayeredWorld,
    patch: WorldPatch,
    applied: LayeredWorld,
    after: LayeredWorld,
)
    requires
        stage.owes(before, stage_seed(root, stage.title()), Ok(patch)),
        stray_cell(patch, before.layers().len() as int) is None,
        is_applied(before, patch, applied),
        after == (LayeredWorld {
            manifest: V2Manifest { pipeline: after.manifest.pipeline, ..applied.manifest },
            ..applied
        }),
        after.manifest.pipeline@.len() == applied.manifest.pipeline@.len() + 1,
        after.manifest.pipeline@.drop_last() == applied.manifest.pipeline@,
        records(after.manifest.pipeline@.last(), stage, root),
    ensures
        is_stage(stage, root, before, patch, after),
{
}

} // verus!
