//! The validation scene: a small world that shows ten kinds of blocks.

use crate::grid::{
    advance, cell_index, coords, in_grid, lemma_cell_index_bounds, lemma_coords_of_cell,
    lemma_end_index, volume, World,
};
use crate::registry::Registry;
use crate::text::join3;
use vstd::prelude::*;

verus! {

/// The ids of the blocks of the scene.
#[derive(Clone, Copy, Debug, PartialEq, Eq, Structural)]
pub struct SceneIds {
    pub stone: u32,
    pub oak_log: u32,
    pub grass_block: u32,
    pub glass: u32,
    pub torch: u32,
    pub rail: u32,
    pub short_grass: u32,
    pub vine: u32,
    pub redstone_wire: u32,
    pub water: u32,
}

/// The blocks of the scene, in the order in which they are looked up.
pub open spec fn scene_names() -> Seq<Seq<char>> {
    seq![
        "stone"@,
        "oak_log"@,
        "grass_block"@,
        "glass"@,
        "torch"@,
        "rail"@,
        "short_grass"@,
        "vine"@,
        "redstone_wire"@,
        "water"@,
    ]
}

/// The ids are those of the names in a registry.
pub open spec fn are_scene_ids(ids: SceneIds, r: Registry) -> bool {
    &&& r.id_of("stone"@) == Some(ids.stone)
    &&& r.id_of("oak_log"@) == Some(ids.oak_log)
    &&& r.id_of("grass_block"@) == Some(ids.grass_block)
    &&& r.id_of("glass"@) == Some(ids.glass)
    &&& r.id_of("torch"@) == Some(ids.torch)
    &&& r.id_of("rail"@) == Some(ids.rail)
    &&& r.id_of("short_grass"@) == Some(ids.short_grass)
    &&& r.id_of("vine"@) == Some(ids.vine)
    &&& r.id_of("redstone_wire"@) == Some(ids.redstone_wire)
    &&& r.id_of("water"@) == Some(ids.water)
}

/// The first name of the scene that a registry does not have.
pub open spec fn first_missing(r: Registry, n: int) -> Option<Seq<char>>
    decreases n,
{
    if n <= 0 {
        None
    } else if first_missing(r, n - 1) is Some {
        first_missing(r, n - 1)
    } else if r.id_of(scene_names()[n - 1]) is None {
        Some(scene_names()[n - 1])
    } else {
        None
    }
}

fn id_for(r: &Registry, name: &str) -> (id: Result<u32, String>)
    requires
        r.blocks.len() < u32::MAX,
    ensures
        match id {
            Ok(i) => r.id_of(name@) == Some(i),
            Err(m) => r.id_of(name@) is None && m@ == "block "@ + name@ + " missing"@,
        },
{
    match r.block_id(name) {
        Some(i) => Ok(i),
        None => Err(join3("block ", name, " missing")),
    }
}

/// Looks up the blocks of the scene; the first one missing is an error.
pub fn scene_ids(r: &Registry) -> (ids: Result<SceneIds, String>)
    requires
        r.blocks.len() < u32::MAX,
    ensures
        match ids {
            Ok(i) => are_scene_ids(i, *r),
            Err(m) => first_missing(*r, 10) matches Some(name) && m@ == "block "@ + name
                + " missing"@,
        },
{
    proof {
        reveal_with_fuel(first_missing, 11);
    }
    let stone = match id_for(r, "stone") {
        Ok(i) => i,
        Err(m) => {
            return Err(m);
        },
    };
    let oak_log = match id_for(r, "oak_log") {
        Ok(i) => i,
        Err(m) => {
            return Err(m);
        },
    };
    let grass_block = match id_for(r, "grass_block") {
        Ok(i) => i,
        Err(m) => {
            return Err(m);
        },
    };
    let glass = match id_for(r, "glass") {
        Ok(i) => i,
        Err(m) => {
            return Err(m);
        },
    };
    let torch = match id_for(r, "torch") {
        Ok(i) => i,
        Err(m) => {
            return Err(m);
        },
    };
    let rail = match id_for(r, "rail") {
        Ok(i) => i,
        Err(m) => {
            return Err(m);
        },
    };
    let short_grass = match id_for(r, "short_grass") {
        Ok(i) => i,
        Err(m) => {
            return Err(m);
        },
    };
    let vine = match id_for(r, "vine") {
        Ok(i) => i,
        Err(m) => {
            return Err(m);
        },
    };
    let redstone_wire = match id_for(r, "redstone_wire") {
        Ok(i) => i,
        Err(m) => {
            return Err(m);
        },
    };
    let water = match id_for(r, "water") {
        Ok(i) => i,
        Err(m) => {
            return Err(m);
        },
    };
    Ok(
        SceneIds {
            stone,
            oak_log,
            grass_block,
            glass,
            torch,
            rail,
            short_grass,
            vine,
            redstone_wire,
            water,
        },
    )
}

/// What stands at a place of the scene: block and state.
pub open spec fn scene_at(ids: SceneIds, x: int, y: int, z: int) -> (u32, u32) {
    if y == 0 {
        (ids.stone, 0)
    } else if y == 1 && z == 4 && (x == 4 || x == 6 || x == 8) {
        (ids.oak_log, ((x - 4) / 2) as u32)
    } else if y == 1 && z == 8 && (x == 4 || x == 6) {
        (ids.grass_block, ((x - 4) / 2) as u32)
    } else if 1 <= y <= 3 && z == 4 && (x == 12 || x == 13) {
        (ids.glass, 0)
    } else if (x, y, z) == (4int, 1int, 12int) {
        (ids.torch, 0)
    } else if 6 <= x <= 9 && y == 1 && z == 12 {
        (ids.rail, 0)
    } else if y == 1 && ((x == 12 && z == 8) || (x == 13 && z == 9) || (x == 14 && z == 8)) {
        (ids.short_grass, 0)
    } else if x == 16 && 1 <= y <= 3 && z == 8 {
        (ids.stone, 0)
    } else if x == 17 && 2 <= y <= 3 && z == 8 {
        (ids.vine, 0)
    } else if 12 <= x <= 17 && y == 1 && z == 14 {
        (ids.redstone_wire, 0)
    } else if 20 <= x <= 25 && y == 1 && 4 <= z <= 9 {
        (ids.water, 0)
    } else {
        (0, 0)
    }
}

fn block_in_scene(ids: &SceneIds, x: u32, y: u32, z: u32) -> (r: (u32, u32))
    ensures
        r == scene_at(*ids, x as int, y as int, z as int),
{
    if y == 0 {
        (ids.stone, 0)
    } else if y == 1 && z == 4 && (x == 4 || x == 6 || x == 8) {
        (ids.oak_log, (x - 4) / 2)
    } else if y == 1 && z == 8 && (x == 4 || x == 6) {
        (ids.grass_block, (x - 4) / 2)
    } else if y >= 1 && y <= 3 && z == 4 && (x == 12 || x == 13) {
        (ids.glass, 0)
    } else if x == 4 && y == 1 && z == 12 {
        (ids.torch, 0)
    } else if x >= 6 && x <= 9 && y == 1 && z == 12 {
        (ids.rail, 0)
    } else if y == 1 && ((x == 12 && z == 8) || (x == 13 && z == 9) || (x == 14 && z == 8)) {
        (ids.short_grass, 0)
    } else if x == 16 && y >= 1 && y <= 3 && z == 8 {
        (ids.stone, 0)
    } else if x == 17 && y >= 2 && y <= 3 && z == 8 {
        (ids.vine, 0)
    } else if x >= 12 && x <= 17 && y == 1 && z == 14 {
        (ids.redstone_wire, 0)
    } else if x >= 20 && x <= 25 && y == 1 && z >= 4 && z <= 9 {
        (ids.water, 0)
    } else {
        (0, 0)
    }
}

/// Builds the scene.
pub fn build_validation_world(ids: &SceneIds) -> (r: World)
    ensures
        r.wf(),
        r.size@ == seq![32u32, 16, 32],
        forall|x: int, y: int, z: int|
            in_grid(r.size, x, y, z) ==> #[trigger] r.cell(x, y, z) == scene_at(*ids, x, y, z),
{
    let size: [u32; 3] = [32, 16, 32];
    assert(size@ =~= seq![32u32, 16, 32]);
    assert(volume(size) == 16384);
    let mut world = World::new(size);
    let n: usize = 16384;
    let mut x: u32 = 0;
    let mut y: u32 = 0;
    let mut z: u32 = 0;
    let mut i: usize = 0;
    proof {
        lemma_end_index(size);
    }
    while i < n
        invariant
            n == volume(size),
            size@ == seq![32u32, 16, 32],
            world.wf(),
            world.size == size,
            i <= n,
            i < n ==> in_grid(size, x as int, y as int, z as int),
            i == cell_index(size, x as int, y as int, z as int),
            forall|k: int|
                0 <= k < i ==> (#[trigger] world.blocks@[k], world.states@[k]) == scene_at(
                    *ids,
                    coords(size, k).0,
                    coords(size, k).1,
                    coords(size, k).2,
                ),
        decreases n - i,
    {
        let (block, state) = block_in_scene(ids, x, y, z);
        let ghost blocks0 = world.blocks@;
        let ghost states0 = world.states@;
        proof {
            lemma_coords_of_cell(size, x as int, y as int, z as int);
            lemma_cell_index_bounds(size, x as int, y as int, z as int);
            lemma_end_index(size);
        }
        world.set(x, y, z, block, state);
        assert forall|k: int| 0 <= k < i + 1 implies (
            #[trigger] world.blocks@[k],
            world.states@[k],
        ) == scene_at(*ids, coords(size, k).0, coords(size, k).1, coords(size, k).2) by {
            if k < i {
                assert(world.blocks@[k] == blocks0[k]);
                assert(world.states@[k] == states0[k]);
            }
        }
        let next = advance(size, x, y, z);
        x = next.0;
        y = next.1;
        z = next.2;
        i += 1;
    }
    assert forall|a: int, b: int, c: int| in_grid(world.size, a, b, c) implies #[trigger] world.cell(
        a,
        b,
        c,
    ) == scene_at(*ids, a, b, c) by {
        lemma_coords_of_cell(size, a, b, c);
        lemma_cell_index_bounds(size, a, b, c);
        let k = cell_index(size, a, b, c);
        assert((world.blocks@[k], world.states@[k]) == scene_at(
            *ids,
            coords(size, k).0,
            coords(size, k).1,
            coords(size, k).2,
        ));
    }
    world
}

/// The scene: a floor of stone; on it three logs, one for each axis, and two
/// blocks of grass, a pane of glass of two by three, a torch, four rails,
/// three tufts of grass, a pillar of stone with vines at its side, a line of
/// wire and a square pond.
pub proof fn law_scene_has_its_parts(ids: SceneIds, x: int, y: int, z: int)
    ensures
        scene_at(ids, x, 0, z) == (ids.stone, 0u32),
        scene_at(ids, 4, 1, 4) == (ids.oak_log, 0u32),
        scene_at(ids, 6, 1, 4) == (ids.oak_log, 1u32),
        scene_at(ids, 8, 1, 4) == (ids.oak_log, 2u32),
        scene_at(ids, 4, 1, 8) == (ids.grass_block, 0u32),
        scene_at(ids, 6, 1, 8) == (ids.grass_block, 1u32),
        12 <= x < 14 && 1 <= y < 4 ==> scene_at(ids, x, y, 4) == (ids.glass, 0u32),
        scene_at(ids, 4, 1, 12) == (ids.torch, 0u32),
        6 <= x < 10 ==> scene_at(ids, x, 1, 12) == (ids.rail, 0u32),
        scene_at(ids, 12, 1, 8) == (ids.short_grass, 0u32),
        scene_at(ids, 13, 1, 9) == (ids.short_grass, 0u32),
        scene_at(ids, 14, 1, 8) == (ids.short_grass, 0u32),
        1 <= y < 4 ==> scene_at(ids, 16, y, 8) == (ids.stone, 0u32),
        2 <= y < 4 ==> scene_at(ids, 17, y, 8) == (ids.vine, 0u32),
        12 <= x < 18 ==> scene_at(ids, x, 1, 14) == (ids.redstone_wire, 0u32),
        20 <= x < 26 && 4 <= z < 10 ==> scene_at(ids, x, 1, z) == (ids.water, 0u32),
        y >= 4 ==> scene_at(ids, x, y, z) == (0u32, 0u32),
        y > 0 && (z < 4 || z > 14 || x < 4 || x > 25) ==> scene_at(ids, x, y, z) == (0u32, 0u32),
        y > 1 && !(z == 4 && 12 <= x <= 13) && !(z == 8 && 16 <= x <= 17) ==> scene_at(ids, x, y, z)
            == (0u32, 0u32),
        y == 1 && (z == 5 || z == 6 || z == 7) && x < 20 ==> scene_at(ids, x, y, z) == (0u32, 0u32),
{
}

/// The scene's ids are those of its ten blocks; where one is missing, the first
/// that is, is named.
pub proof fn law_scene_needs_its_blocks(r: Registry, ids: SceneIds)
    ensures
        are_scene_ids(ids, r) ==> r.id_of("stone"@) == Some(ids.stone),
        are_scene_ids(ids, r) ==> r.id_of("oak_log"@) == Some(ids.oak_log),
        are_scene_ids(ids, r) ==> r.id_of("grass_block"@) == Some(ids.grass_block),
        are_scene_ids(ids, r) ==> r.id_of("glass"@) == Some(ids.glass),
        are_scene_ids(ids, r) ==> r.id_of("torch"@) == Some(ids.torch),
        are_scene_ids(ids, r) ==> r.id_of("rail"@) == Some(ids.rail),
        are_scene_ids(ids, r) ==> r.id_of("short_grass"@) == Some(ids.short_grass),
        are_scene_ids(ids, r) ==> r.id_of("vine"@) == Some(ids.vine),
        are_scene_ids(ids, r) ==> r.id_of("redstone_wire"@) == Some(ids.redstone_wire),
        are_scene_ids(ids, r) ==> r.id_of("water"@) == Some(ids.water),
        first_missing(r, 10) is None <==> (r.id_of("stone"@) is Some && r.id_of("oak_log"@) is Some && r.id_of("grass_block"@) is Some && r.id_of("glass"@) is Some && r.id_of("torch"@) is Some && r.id_of("rail"@) is Some && r.id_of("short_grass"@) is Some && r.id_of("vine"@) is Some && r.id_of("redstone_wire"@) is Some && r.id_of("water"@) is Some),
        r.id_of("stone"@) is None ==> first_missing(r, 10) == Some("stone"@),
        r.id_of("stone"@) is Some && r.id_of("oak_log"@) is None ==> first_missing(r, 10) == Some("oak_log"@),
        r.id_of("stone"@) is Some && r.id_of("oak_log"@) is Some && r.id_of("grass_block"@) is None ==> first_missing(r, 10) == Some("grass_block"@),
        r.id_of("stone"@) is Some && r.id_of("oak_log"@) is Some && r.id_of("grass_block"@) is Some && r.id_of("glass"@) is None ==> first_missing(r, 10) == Some("glass"@),
        r.id_of("stone"@) is Some && r.id_of("oak_log"@) is Some && r.id_of("grass_block"@) is Some && r.id_of("glass"@) is Some && r.id_of("torch"@) is None ==> first_missing(r, 10) == Some("torch"@),
        r.id_of("stone"@) is Some && r.id_of("oak_log"@) is Some && r.id_of("grass_block"@) is Some && r.id_of("glass"@) is Some && r.id_of("torch"@) is Some && r.id_of("rail"@) is None ==> first_missing(r, 10) == Some("rail"@),
        r.id_of("stone"@) is Some && r.id_of("oak_log"@) is Some && r.id_of("grass_block"@) is Some && r.id_of("glass"@) is Some && r.id_of("torch"@) is Some && r.id_of("rail"@) is Some && r.id_of("short_grass"@) is None ==> first_missing(r, 10) == Some("short_grass"@),
        r.id_of("stone"@) is Some && r.id_of("oak_log"@) is Some && r.id_of("grass_block"@) is Some && r.id_of("glass"@) is Some && r.id_of("torch"@) is Some && r.id_of("rail"@) is Some && r.id_of("short_grass"@) is Some && r.id_of("vine"@) is None ==> first_missing(r, 10) == Some("vine"@),
        r.id_of("stone"@) is Some && r.id_of("oak_log"@) is Some && r.id_of("grass_block"@) is Some && r.id_of("glass"@) is Some && r.id_of("torch"@) is Some && r.id_of("rail"@) is Some && r.id_of("short_grass"@) is Some && r.id_of("vine"@) is Some && r.id_of("redstone_wire"@) is None ==> first_missing(r, 10) == Some("redstone_wire"@),
        r.id_of("stone"@) is Some && r.id_of("oak_log"@) is Some && r.id_of("grass_block"@) is Some && r.id_of("glass"@) is Some && r.id_of("torch"@) is Some && r.id_of("rail"@) is Some && r.id_of("short_grass"@) is Some && r.id_of("vine"@) is Some && r.id_of("redstone_wire"@) is Some && r.id_of("water"@) is None ==> first_missing(r, 10) == Some("water"@),
{
    reveal_with_fuel(first_missing, 11);
    assert(scene_names()[0] == "stone"@);
    assert(scene_names()[1] == "oak_log"@);
    assert(scene_names()[2] == "grass_block"@);
    assert(scene_names()[3] == "glass"@);
    assert(scene_names()[4] == "torch"@);
    assert(scene_names()[5] == "rail"@);
    assert(scene_names()[6] == "short_grass"@);
    assert(scene_names()[7] == "vine"@);
    assert(scene_names()[8] == "redstone_wire"@);
    assert(scene_names()[9] == "water"@);
}

} // verus!
