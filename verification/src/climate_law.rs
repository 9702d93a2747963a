//! What land cover means: how biomes follow moisture, height and latitude, and
//! landforms the relief.
use vstd::prelude::*;
use crate::coord::abs;
use crate::landcover::{
    biome_at, biomes_of, fertility_of, is_formed, is_ground, is_settled_by_life, landforms_of,
    latitude, steepest, steepness,
};
use crate::layers::{Biome, Landform, LayeredWorld, Surface};
use crate::patch::{writes_where, WorldPatch};

verus! {

/// Writes go to the cells that pass, in ascending order, each with its value.
pub proof fn lemma_writes<A>(n: int, test: spec_fn(int) -> bool, value: spec_fn(int) -> A)
    requires
        0 <= n <= u32::MAX,
    ensures
        writes_where(n, test, value).len() <= n,
        forall|i: int|
            0 <= i < writes_where(n, test, value).len() ==> {
                let w = #[trigger] writes_where(n, test, value)[i];
                w.0 < n && test(w.0 as int) && w.1 == value(w.0 as int)
            },
        forall|i: int, j: int|
            0 <= i < j < writes_where(n, test, value).len() ==> (#[trigger] writes_where(
                n,
                test,
                value,
            )[i]).0 < (#[trigger] writes_where(n, test, value)[j]).0,
    decreases n,
{
    if n > 0 {
        lemma_writes(n - 1, test, value);
    }
}

/// Every cell that passes is written to.
pub proof fn lemma_written<A>(n: int, test: spec_fn(int) -> bool, value: spec_fn(int) -> A, id: int)
    requires
        0 <= id < n <= u32::MAX,
        test(id),
    ensures
        writes_where(n, test, value).contains((id as u32, value(id))),
    decreases n,
{
    let w = writes_where(n, test, value);
    if id == n - 1 {
        assert(w.last() == (id as u32, value(id)));
    } else {
        lemma_written(n - 1, test, value, id);
        let earlier = writes_where(n - 1, test, value);
        let i = choose|i: int| 0 <= i < earlier.len() && earlier[i] == (id as u32, value(id));
        assert(w[i] == earlier[i]);
    }
}

/// Writes of two values to the same cells stand side by side.
pub proof fn lemma_writes_align<A, B>(
    n: int,
    test: spec_fn(int) -> bool,
    a: spec_fn(int) -> A,
    b: spec_fn(int) -> B,
)
    ensures
        writes_where(n, test, a).len() == writes_where(n, test, b).len(),
        forall|i: int|
            0 <= i < writes_where(n, test, a).len() ==> (#[trigger] writes_where(n, test, a)[i]).0
                == writes_where(n, test, b)[i].0,
    decreases n,
{
    if n > 0 {
        lemma_writes_align(n - 1, test, a, b);
    }
}

/// The biome pass names a biome for every land cell, once and in order, and for
/// no other. A mountain, and land from 480 up, is alpine. Below that, land in the
/// outer rows is tundra: where the row lies more than 215 parts in 255 of half the
/// height from the middle. All other land is dry below a moisture of 68, wooded
/// from 135 and wet from 205, and grassland in between.
pub proof fn law_biomes_follow_the_climate(
    world: LayeredWorld,
    seed: u64,
    p: WorldPatch,
    i: int,
)
    requires
        world.is_laid_out(),
        is_settled_by_life(world, seed, p),
        0 <= i < p.biomes@.len(),
    ensures
        ({
            let id = p.biomes@[i].0 as int;
            let biome = p.biomes@[i].1;
            let cell = world.layers()[id];
            let height = world.manifest.height as int;
            let off = 2 * (id / world.manifest.width as int) - height;
            let far = off * 255 >= 216 * height || -off * 255 >= 216 * height;
            let high = cell.landform == Landform::Mountain || cell.elevation >= 480;
            &&& id < world.layers().len()
            &&& cell.surface == Surface::Land
            &&& biome == Biome::Alpine <==> high
            &&& biome == Biome::Tundra <==> !high && far
            &&& biome == Biome::Dryland <==> !high && !far && cell.moisture < 68
            &&& biome == Biome::TemperateGrassland <==> !high && !far && 68 <= cell.moisture < 135
            &&& biome == Biome::Forest <==> !high && !far && 135 <= cell.moisture < 205
            &&& biome == Biome::Wetland <==> !high && !far && 205 <= cell.moisture
        }),
        forall|j: int| 0 <= j < i ==> (#[trigger] p.biomes@[j]).0 < p.biomes@[i].0,
        p.biomes@.len() == p.fertility@.len(),
        p.biomes@[i].0 == p.fertility@[i].0,
{
    let n = world.grid().count();
    lemma_writes(n, is_ground(world), biomes_of(world));
    lemma_writes_align(n, is_ground(world), biomes_of(world), fertility_of(world, seed));
    let id = p.biomes@[i].0 as int;
    assert(p.biomes@[i].1 == biome_at(world, id));
    let h = world.manifest.height as int;
    let off = 2 * (id / world.manifest.width as int) - h;
    assert(abs(off) * 255 >= 216 * h <==> (abs(off) * 255) / h > 215) by (nonlinear_arith)
        requires
            h > 0,
    ;
    assert(latitude(id / world.grid().width, world.grid().height) == (abs(off) * 255) / h);
}

/// No land cell goes without a biome and a fertility.
pub proof fn law_all_land_is_settled(world: LayeredWorld, seed: u64, p: WorldPatch, id: int)
    requires
        world.is_laid_out(),
        is_settled_by_life(world, seed, p),
        0 <= id < world.layers().len(),
        world.layers()[id].surface == Surface::Land,
    ensures
        exists|i: int| 0 <= i < p.biomes@.len() && (#[trigger] p.biomes@[i]).0 == id,
        exists|i: int| 0 <= i < p.fertility@.len() && (#[trigger] p.fertility@[i]).0 == id,
{
    let n = world.grid().count();
    lemma_written(n, is_ground(world), biomes_of(world), id);
    lemma_written(n, is_ground(world), fertility_of(world, seed), id);
    let w = (id as u32, biomes_of(world)(id));
    let i = choose|i: int| 0 <= i < p.biomes@.len() && p.biomes@[i] == w;
    assert(p.biomes@[i].0 == id);
    let v = (id as u32, fertility_of(world, seed)(id));
    let j = choose|j: int| 0 <= j < p.fertility@.len() && p.fertility@[j] == v;
    assert(p.fertility@[j].0 == id);
}

/// With rising moisture lowland of one row turns from dryland to grassland, from
/// grassland to forest and from forest to wetland, and never back: of two such
/// cells, whatever worlds they lie in, the damper one is no earlier in this row.
pub proof fn law_moisture_never_turns_back(
    world: LayeredWorld,
    seed: u64,
    p: WorldPatch,
    i: int,
    other: LayeredWorld,
    seed2: u64,
    q: WorldPatch,
    j: int,
)
    requires
        world.is_laid_out(),
        other.is_laid_out(),
        is_settled_by_life(world, seed, p),
        is_settled_by_life(other, seed2, q),
        0 <= i < p.biomes@.len(),
        0 <= j < q.biomes@.len(),
        world.manifest.height == other.manifest.height,
        p.biomes@[i].0 as int / world.manifest.width as int == q.biomes@[j].0 as int
            / other.manifest.width as int,
        world.layers()[p.biomes@[i].0 as int].landform != Landform::Mountain,
        other.layers()[q.biomes@[j].0 as int].landform != Landform::Mountain,
        world.layers()[p.biomes@[i].0 as int].elevation < 480,
        other.layers()[q.biomes@[j].0 as int].elevation < 480,
        world.layers()[p.biomes@[i].0 as int].moisture <= other.layers()[q.biomes@[j].0 as int].moisture,
    ensures
        p.biomes@[i].1 == Biome::Tundra <==> q.biomes@[j].1 == Biome::Tundra,
        q.biomes@[j].1 == Biome::Dryland ==> p.biomes@[i].1 == Biome::Dryland,
        q.biomes@[j].1 == Biome::TemperateGrassland ==> p.biomes@[i].1 == Biome::Dryland
            || p.biomes@[i].1 == Biome::TemperateGrassland,
        q.biomes@[j].1 == Biome::Forest ==> p.biomes@[i].1 != Biome::Wetland,
{
    law_biomes_follow_the_climate(world, seed, p, i);
    law_biomes_follow_the_climate(other, seed2, q, j);
}

/// The fertility of a cell lies within fifteen of what its biome yields: 205 on
/// wetland, 180 on grassland, 165 in forest, 70 on dryland, 45 on alpine land and
/// tundra. So the damp lowland biomes always yield more than the others.
pub proof fn law_fertility_follows_the_biome(
    world: LayeredWorld,
    seed: u64,
    p: WorldPatch,
    i: int,
)
    requires
        world.is_laid_out(),
        is_settled_by_life(world, seed, p),
        0 <= i < p.biomes@.len(),
    ensures
        ({
            let biome = p.biomes@[i].1;
            let yields = p.fertility@[i].1 as int;
            &&& biome == Biome::Wetland ==> 190 <= yields <= 220
            &&& biome == Biome::TemperateGrassland ==> 165 <= yields <= 195
            &&& biome == Biome::Forest ==> 150 <= yields <= 180
            &&& biome == Biome::Dryland ==> 55 <= yields <= 85
            &&& biome == Biome::Alpine || biome == Biome::Tundra ==> 30 <= yields <= 60
        }),
{
    let n = world.grid().count();
    lemma_writes(n, is_ground(world), biomes_of(world));
    lemma_writes(n, is_ground(world), fertility_of(world, seed));
    lemma_writes_align(n, is_ground(world), biomes_of(world), fertility_of(world, seed));
    let id = p.biomes@[i].0 as int;
    assert(p.biomes@[i].1 == biome_at(world, id));
    assert(p.fertility@[i].0 == id);
    assert(p.fertility@[i].1 == fertility_of(world, seed)(id));
}

/// Whether a cell and one of its neighbours differ in height by so much.
pub open spec fn differs_by(world: LayeredWorld, id: int, least: int) -> bool {
    exists|d: int|
        0 <= d < 6 && (#[trigger] world.grid().beside(id, d) matches Some(n) && (
        world.layers()[id].elevation - world.layers()[n].elevation >= least
            || world.layers()[n].elevation - world.layers()[id].elevation >= least))
}

proof fn lemma_steepest_reaches(world: LayeredWorld, id: int, directions: int, least: int)
    requires
        0 <= directions <= 6,
        least > 0,
    ensures
        steepest(world, id, directions) >= least <==> exists|d: int|
            0 <= d < directions && (#[trigger] world.grid().beside(id, d) matches Some(n) && (
            world.layers()[id].elevation - world.layers()[n].elevation >= least
                || world.layers()[n].elevation - world.layers()[id].elevation >= least)),
    decreases directions,
{
    if directions > 0 {
        let d = directions - 1;
        lemma_steepest_reaches(world, id, d, least);
        if steepest(world, id, directions) >= least {
            if steepest(world, id, d) < least {
                assert(steepness(world, id, d) >= least);
                assert(world.grid().beside(id, d) is Some);
            }
        }
        if exists|e: int|
            0 <= e < directions && (#[trigger] world.grid().beside(id, e) matches Some(n) && (
            world.layers()[id].elevation - world.layers()[n].elevation >= least
                || world.layers()[n].elevation - world.layers()[id].elevation >= least)) {
            let e = choose|e: int|
                0 <= e < directions && (#[trigger] world.grid().beside(id, e) matches Some(n) && (
                world.layers()[id].elevation - world.layers()[n].elevation >= least
                    || world.layers()[n].elevation - world.layers()[id].elevation >= least));
            if e == d {
                assert(steepness(world, id, d) >= least);
            }
        }
    }
}

/// The landform pass names a landform for every land cell, once and in order, and
/// for no other. A river cell whose ground changes by more than 28 towards a
/// neighbour is a valley. Other land is mountain from 430 up or where it changes by
/// 170; of the rest, land from 300 up that changes by less than 48 is plateau; of
/// the rest, land from 155 up or that changes by 58 is hill; what remains is plain.
pub proof fn law_landforms_follow_the_relief(world: LayeredWorld, p: WorldPatch, i: int)
    requires
        world.is_laid_out(),
        is_formed(world, p),
        0 <= i < p.landforms@.len(),
    ensures
        ({
            let id = p.landforms@[i].0 as int;
            let form = p.landforms@[i].1;
            let cell = world.layers()[id];
            let valley = cell.river is Some && differs_by(world, id, 29);
            let mountain = cell.elevation >= 430 || differs_by(world, id, 170);
            let plateau = cell.elevation >= 300 && !differs_by(world, id, 48);
            let hill = cell.elevation >= 155 || differs_by(world, id, 58);
            &&& id < world.layers().len()
            &&& cell.surface == Surface::Land
            &&& form == Landform::Valley <==> valley
            &&& form == Landform::Mountain <==> !valley && mountain
            &&& form == Landform::Plateau <==> !valley && !mountain && plateau
            &&& form == Landform::Hill <==> !valley && !mountain && !plateau && hill
            &&& form == Landform::Plain <==> !valley && !mountain && !plateau && !hill
        }),
        forall|j: int| 0 <= j < i ==> (#[trigger] p.landforms@[j]).0 < p.landforms@[i].0,
{
    let n = world.grid().count();
    lemma_writes(n, is_ground(world), landforms_of(world));
    let id = p.landforms@[i].0 as int;
    lemma_steepest_reaches(world, id, 6, 29);
    lemma_steepest_reaches(world, id, 6, 170);
    lemma_steepest_reaches(world, id, 6, 48);
    lemma_steepest_reaches(world, id, 6, 58);
}

/// No land cell goes without a landform.
pub proof fn law_all_land_has_a_form(world: LayeredWorld, p: WorldPatch, id: int)
    requires
        world.is_laid_out(),
        is_formed(world, p),
        0 <= id < world.layers().len(),
        world.layers()[id].surface == Surface::Land,
    ensures
        exists|i: int| 0 <= i < p.landforms@.len() && (#[trigger] p.landforms@[i]).0 == id,
{
    lemma_written(world.grid().count(), is_ground(world), landforms_of(world), id);
    let w = (id as u32, landforms_of(world)(id));
    let i = choose|i: int| 0 <= i < p.landforms@.len() && p.landforms@[i] == w;
    assert(p.landforms@[i].0 == id);
}

} // verus!
