//! Voxel light propagation (sky and block channels).
//!
//! * Sky light is 15 in every cell with nothing light-blocking in its column
//!   from the cell upward, and spreads from there.
//! * Block light starts at each emitter's level and at one less in the cells
//!   around it, and spreads from there.
//! * Light spreads into cells that do not block light, dropping 1 per step.
//!
//! Each channel is the least grid that holds its seeds and is closed under
//! spreading, so the order in which cells are visited does not matter.

use crate::blockstates::Occlusion;
use crate::grid::{
    advance, cell_index, coords, in_grid, lemma_cell_index_bounds, lemma_cell_index_injective,
    lemma_cell_of_coords, lemma_coords_of_cell, lemma_end_index, size_fits, tabulated, volume,
    World,
};
use crate::registry::Registry;
use crate::text::str_eq;
use std::collections::VecDeque;
use vstd::prelude::*;

verus! {

/// Light levels for one voxel: (sky, block), 0..=15 each.
pub type LightLevels = [u8; 2];

/// The light level that a block of this name emits.
pub open spec fn emission_of_name(name: Seq<char>) -> u8 {
    if name == "torch"@ || name == "soul_torch"@ || name == "redstone_torch"@ || name == "lantern"@
        || name == "sea_lantern"@ {
        14
    } else if name == "glowstone"@ || name == "shroomlight"@ || name == "ochre_froglight"@ || name
        == "verdant_froglight"@ || name == "pearlescent_froglight"@ || name == "jack_o_lantern"@
        || name == "campfire"@ || name == "soul_lantern"@ || name == "end_rod"@ || name
        == "candle"@ || name == "beacon"@ || name == "conduit"@ || name == "respawn_anchor"@ || name
        == "magma_block"@ || name == "fire"@ || name == "soul_fire"@ || name == "furnace"@ || name
        == "redstone_lamp"@ || name == "crying_obsidian"@ || name == "lava"@ || name == "light"@ {
        15
    } else {
        0
    }
}

fn emitter_level(name: &str) -> (r: u8)
    ensures
        r == emission_of_name(name@),
{
    if str_eq(name, "torch") || str_eq(name, "soul_torch") || str_eq(name, "redstone_torch")
        || str_eq(name, "lantern") || str_eq(name, "sea_lantern") {
        14
    } else if str_eq(name, "glowstone") || str_eq(name, "shroomlight") || str_eq(
        name,
        "ochre_froglight",
    ) || str_eq(name, "verdant_froglight") || str_eq(name, "pearlescent_froglight") || str_eq(
        name,
        "jack_o_lantern",
    ) || str_eq(name, "campfire") || str_eq(name, "soul_lantern") || str_eq(name, "end_rod")
        || str_eq(name, "candle") || str_eq(name, "beacon") || str_eq(name, "conduit") || str_eq(
        name,
        "respawn_anchor",
    ) || str_eq(name, "magma_block") || str_eq(name, "fire") || str_eq(name, "soul_fire") || str_eq(
        name,
        "furnace",
    ) || str_eq(name, "redstone_lamp") || str_eq(name, "crying_obsidian") || str_eq(name, "lava")
        || str_eq(name, "light") {
        15
    } else {
        0
    }
}

/// A cell blocks light: occlusion data decides, air never blocks, and a block
/// or state that the registry does not know blocks.
pub open spec fn blocks_light(world: World, registry: Registry, x: int, y: int, z: int) -> bool {
    let (id, state) = world.cell(x, y, z);
    if id == 0 {
        false
    } else {
        match registry.state_at(id, state) {
            Some(s) => s.occlusion == Occlusion::Full,
            None => true,
        }
    }
}

/// The level that the block in a cell emits.
pub open spec fn emission(world: World, registry: Registry, x: int, y: int, z: int) -> u8 {
    match registry.block_at(world.cell(x, y, z).0) {
        Some(b) => emission_of_name(b.name@),
        None => 0,
    }
}

/// The six steps to a neighbor.
pub open spec fn step(k: int) -> (int, int, int) {
    if k == 0 {
        (1, 0, 0)
    } else if k == 1 {
        (-1, 0, 0)
    } else if k == 2 {
        (0, 1, 0)
    } else if k == 3 {
        (0, -1, 0)
    } else if k == 4 {
        (0, 0, 1)
    } else {
        (0, 0, -1)
    }
}

/// The neighbor `k` of a cell lies in the grid.
pub open spec fn has_neighbor(size: [u32; 3], x: int, y: int, z: int, k: int) -> bool {
    in_grid(size, x + step(k).0, y + step(k).1, z + step(k).2)
}

/// The position of the neighbor `k` of a cell.
pub open spec fn neighbor_index(size: [u32; 3], x: int, y: int, z: int, k: int) -> int {
    cell_index(size, x + step(k).0, y + step(k).1, z + step(k).2)
}

/// Light has spread from a cell to its neighbor `k`: the neighbor blocks
/// light, or is at most one level darker.
pub open spec fn spread(
    levels: Seq<u8>,
    solid: Seq<bool>,
    size: [u32; 3],
    x: u32,
    y: u32,
    z: u32,
    k: int,
) -> bool {
    in_grid(size, x as int, y as int, z as int) && 0 <= k < 6 && has_neighbor(
        size,
        x as int,
        y as int,
        z as int,
        k,
    ) && !solid[neighbor_index(size, x as int, y as int, z as int, k)] ==> levels[neighbor_index(
        size,
        x as int,
        y as int,
        z as int,
        k,
    )] + 1 >= levels[cell_index(size, x as int, y as int, z as int)]
}

/// Light has spread everywhere.
pub open spec fn closed_under_spread(levels: Seq<u8>, solid: Seq<bool>, size: [u32; 3]) -> bool {
    forall|x: u32, y: u32, z: u32, k: int| #[trigger] spread(levels, solid, size, x, y, z, k)
}

/// No level of `a` is above that of `b`.
pub open spec fn below(a: Seq<u8>, b: Seq<u8>) -> bool {
    a.len() == b.len() && forall|i: int| 0 <= i < a.len() ==> #[trigger] a[i] <= b[i]
}

/// The least grid that holds the seeds and in which light has spread.
pub open spec fn flooded(
    levels: Seq<u8>,
    seeds: Seq<u8>,
    solid: Seq<bool>,
    size: [u32; 3],
) -> bool {
    &&& below(seeds, levels)
    &&& closed_under_spread(levels, solid, size)
    &&& forall|other: Seq<u8>|
        below(seeds, other) && #[trigger] closed_under_spread(other, solid, size) ==> below(
            levels,
            other,
        )
}

/// The flooded grid is unique.
pub proof fn law_flood_is_unique(
    a: Seq<u8>,
    b: Seq<u8>,
    seeds: Seq<u8>,
    solid: Seq<bool>,
    size: [u32; 3],
)
    requires
        flooded(a, seeds, solid, size),
        flooded(b, seeds, solid, size),
    ensures
        a == b,
{
    assert(below(a, b) && below(b, a));
    assert forall|i: int| 0 <= i < a.len() implies a[i] == b[i] by {
        assert(a[i] <= b[i]);
        assert(b[i] <= a[i]);
    }
    assert(a =~= b);
}

/// Light gets no brighter by spreading than its brightest seed.
pub proof fn law_flood_is_bounded(
    levels: Seq<u8>,
    seeds: Seq<u8>,
    solid: Seq<bool>,
    size: [u32; 3],
    top: u8,
)
    requires
        flooded(levels, seeds, solid, size),
        solid.len() == seeds.len() == volume(size),
        forall|i: int| 0 <= i < seeds.len() ==> #[trigger] seeds[i] <= top,
    ensures
        forall|i: int| 0 <= i < levels.len() ==> #[trigger] levels[i] <= top,
{
    let flat = Seq::new(seeds.len(), |i: int| top);
    assert(below(seeds, flat));
    assert(closed_under_spread(flat, solid, size)) by {
        assert forall|x: u32, y: u32, z: u32, k: int| #[trigger]
            spread(flat, solid, size, x, y, z, k) by {
            if in_grid(size, x as int, y as int, z as int) && 0 <= k < 6 && has_neighbor(
                size,
                x as int,
                y as int,
                z as int,
                k,
            ) {
                lemma_cell_index_bounds(size, x as int, y as int, z as int);
                lemma_cell_index_bounds(size, x + step(k).0, y + step(k).1, z + step(k).2);
            }
        }
    }
    assert(below(levels, flat));
    assert forall|i: int| 0 <= i < levels.len() implies #[trigger] levels[i] <= top by {
        assert(levels[i] <= flat[i]);
    }
}

/// The summed darkness of a grid.
spec fn darkness(levels: Seq<u8>) -> nat
    decreases levels.len(),
{
    if levels.len() == 0 {
        0
    } else {
        (255 - levels.last()) as nat + darkness(levels.drop_last())
    }
}

proof fn lemma_darkness_drops(levels: Seq<u8>, i: int, v: u8)
    requires
        0 <= i < levels.len(),
        levels[i] < v,
    ensures
        darkness(levels.update(i, v)) < darkness(levels),
    decreases levels.len(),
{
    let next = levels.update(i, v);
    if i == levels.len() - 1 {
        assert(next.drop_last() == levels.drop_last());
    } else {
        assert(next.drop_last() == levels.drop_last().update(i, v));
        lemma_darkness_drops(levels.drop_last(), i, v);
    }
}

/// The cell entry that spreads a cell's present level is queued.
spec fn queued(
    levels: Seq<u8>,
    queue: Seq<(u32, u32, u32, u8)>,
    size: [u32; 3],
    x: u32,
    y: u32,
    z: u32,
) -> bool {
    queue.contains((x, y, z, levels[cell_index(size, x as int, y as int, z as int)]))
}

/// Queue entries name cells of the grid and levels that the cells have reached.
spec fn entries_ok(levels: Seq<u8>, queue: Seq<(u32, u32, u32, u8)>, size: [u32; 3]) -> bool {
    forall|i: int| #![trigger queue[i]]
        0 <= i < queue.len() ==> {
            &&& in_grid(size, queue[i].0 as int, queue[i].1 as int, queue[i].2 as int)
            &&& 1 <= queue[i].3 <= levels[cell_index(
                size,
                queue[i].0 as int,
                queue[i].1 as int,
                queue[i].2 as int,
            )]
        }
}

/// A neighbor coordinate, where it lies in the grid.
fn neighbor(size: [u32; 3], x: u32, y: u32, z: u32, k: usize) -> (r: Option<(u32, u32, u32)>)
    requires
        in_grid(size, x as int, y as int, z as int),
        k < 6,
    ensures
        match r {
            Some(n) => has_neighbor(size, x as int, y as int, z as int, k as int) && n.0 == x
                + step(k as int).0 && n.1 == y + step(k as int).1 && n.2 == z + step(k as int).2,
            None => !has_neighbor(size, x as int, y as int, z as int, k as int),
        },
{
    if k == 0 {
        if x + 1 < size[0] {
            Some((x + 1, y, z))
        } else {
            None
        }
    } else if k == 1 {
        if x > 0 {
            Some((x - 1, y, z))
        } else {
            None
        }
    } else if k == 2 {
        if y + 1 < size[1] {
            Some((x, y + 1, z))
        } else {
            None
        }
    } else if k == 3 {
        if y > 0 {
            Some((x, y - 1, z))
        } else {
            None
        }
    } else if k == 4 {
        if z + 1 < size[2] {
            Some((x, y, z + 1))
        } else {
            None
        }
    } else {
        if z > 0 {
            Some((x, y, z - 1))
        } else {
            None
        }
    }
}

/// The position of a cell.
fn flat(size: [u32; 3], x: u32, y: u32, z: u32) -> (r: usize)
    requires
        size_fits(size),
        in_grid(size, x as int, y as int, z as int),
    ensures
        r == cell_index(size, x as int, y as int, z as int),
        r < volume(size),
{
    proof {
        lemma_cell_index_bounds(size, x as int, y as int, z as int);
        let a = size[0] as int;
        let b = size[1] as int;
        let c = size[2] as int;
        let row = y * c + z;
        assert(b * c * 1 <= b * c * a) by (nonlinear_arith)
            requires
                a >= 1,
                b >= 0,
                c >= 0,
        ;
        assert(b * c * a == a * b * c) by (nonlinear_arith);
        assert(0 <= y * c <= row) by (nonlinear_arith)
            requires
                y >= 0,
                c >= 0,
                row == y * c + z,
                z >= 0,
        ;
        assert(0 <= row * a) by (nonlinear_arith)
            requires
                row >= 0,
                a >= 0,
        ;
    }
    ((y * size[2] + z) * size[0] + x) as usize
}

/// Spreads queued light until nothing changes; the queue is empty after that.
fn bfs(
    levels: &mut Vec<u8>,
    queue: &mut VecDeque<(u32, u32, u32, u8)>,
    solid: &Vec<bool>,
    size: [u32; 3],
)
    requires
        size_fits(size),
        old(levels).len() == volume(size),
        solid.len() == volume(size),
        entries_ok(old(levels)@, old(queue)@, size),
        forall|x: u32, y: u32, z: u32|
            in_grid(size, x as int, y as int, z as int) && old(levels)@[cell_index(
                size,
                x as int,
                y as int,
                z as int,
            )] > 1 ==> #[trigger] queued(old(levels)@, old(queue)@, size, x, y, z),
    ensures
        flooded(final(levels)@, old(levels)@, solid@, size),
        final(queue)@.len() == 0,
{
    let ghost seeds = levels@;
    assert forall|x: u32, y: u32, z: u32, k: int|
        (#[trigger] spread(levels@, solid@, size, x, y, z, k)) || queued(
            levels@,
            queue@,
            size,
            x,
            y,
            z,
        ) by {
        if !spread(levels@, solid@, size, x, y, z, k) {
            lemma_cell_index_bounds(size, x + step(k).0, y + step(k).1, z + step(k).2);
        }
    }
    loop
        invariant
            size_fits(size),
            levels.len() == volume(size),
            solid.len() == volume(size),
            entries_ok(levels@, queue@, size),
            below(seeds, levels@),
            forall|other: Seq<u8>|
                below(seeds, other) && #[trigger] closed_under_spread(other, solid@, size)
                    ==> below(levels@, other),
            forall|x: u32, y: u32, z: u32, k: int|
                (#[trigger] spread(levels@, solid@, size, x, y, z, k)) || queued(
                    levels@,
                    queue@,
                    size,
                    x,
                    y,
                    z,
                ),
        ensures
            queue@.len() == 0,
        decreases darkness(levels@), queue@.len(),
    {
        let ghost q0 = queue@;
        let (x, y, z, level) = match queue.pop_front() {
            Some(e) => e,
            None => {
                break;
            },
        };
        let ghost head = (x, y, z, level);
        assert(q0[0] == head);
        assert(queue@ == q0.skip(1));
        let here = flat(size, x, y, z);
        assert forall|e: (u32, u32, u32, u8)| q0.contains(e) && e != head implies queue@.contains(
            e,
        ) by {
            let i = q0.index_of(e);
            assert(queue@[i - 1] == e);
        }
        assert(entries_ok(levels@, queue@, size)) by {
            assert forall|i: int| #![trigger queue@[i]] 0 <= i < queue@.len() implies {
                &&& in_grid(size, queue@[i].0 as int, queue@[i].1 as int, queue@[i].2 as int)
                &&& 1 <= queue@[i].3 <= levels@[cell_index(
                    size,
                    queue@[i].0 as int,
                    queue@[i].1 as int,
                    queue@[i].2 as int,
                )]
            } by {
                assert(queue@[i] == q0[i + 1]);
            }
        }
        if levels[here] > level {
            continue ;
        }
        let mut k: usize = 0;
        let ghost dark0 = darkness(levels@);
        let ghost len0 = q0.len();
        while k < 6
            invariant
                k <= 6,
                size_fits(size),
                levels.len() == volume(size),
                solid.len() == volume(size),
                in_grid(size, x as int, y as int, z as int),
                here == cell_index(size, x as int, y as int, z as int),
                here < volume(size),
                levels@[here as int] == level,
                level >= 1,
                entries_ok(levels@, queue@, size),
                below(seeds, levels@),
                forall|other: Seq<u8>|
                    below(seeds, other) && #[trigger] closed_under_spread(other, solid@, size)
                        ==> below(levels@, other),
                forall|x2: u32, y2: u32, z2: u32, k2: int|
                    (#[trigger] spread(levels@, solid@, size, x2, y2, z2, k2)) || queued(
                        levels@,
                        queue@,
                        size,
                        x2,
                        y2,
                        z2,
                    ) || ((x2, y2, z2) == (x, y, z) && k2 >= k),
                darkness(levels@) < dark0 || (darkness(levels@) == dark0 && queue@.len() + 1
                    == len0),
            decreases 6 - k,
        {
            let ghost before = levels@;
            let ghost qb = queue@;
            match neighbor(size, x, y, z, k) {
                Some((nx, ny, nz)) => {
                    let i = flat(size, nx, ny, nz);
                    let next: u8 = level - 1;
                    if !solid[i] && levels[i] < next {
                        proof {
                            lemma_darkness_drops(levels@, i as int, next);
                        }
                        levels[i] = next;
                        queue.push_back((nx, ny, nz, next));
                        assert(queue@ == qb.push((nx, ny, nz, next)));
                        assert(queue@[qb.len() as int] == (nx, ny, nz, next));
                        assert forall|e: (u32, u32, u32, u8)| qb.contains(e) implies queue@.contains(
                            e,
                        ) by {
                            let j = qb.index_of(e);
                            assert(queue@[j] == e);
                        }
                        assert(entries_ok(levels@, queue@, size)) by {
                            assert forall|j: int| #![trigger queue@[j]]
                                0 <= j < queue@.len() implies {
                                &&& in_grid(
                                    size,
                                    queue@[j].0 as int,
                                    queue@[j].1 as int,
                                    queue@[j].2 as int,
                                )
                                &&& 1 <= queue@[j].3 <= levels@[cell_index(
                                    size,
                                    queue@[j].0 as int,
                                    queue@[j].1 as int,
                                    queue@[j].2 as int,
                                )]
                            } by {
                                if j < qb.len() {
                                    assert(queue@[j] == qb[j]);
                                    lemma_cell_index_bounds(
                                        size,
                                        qb[j].0 as int,
                                        qb[j].1 as int,
                                        qb[j].2 as int,
                                    );
                                }
                            }
                        }
                        assert forall|other: Seq<u8>|
                            below(seeds, other) && #[trigger] closed_under_spread(
                                other,
                                solid@,
                                size,
                            ) implies below(levels@, other) by {
                            assert(spread(other, solid@, size, x, y, z, k as int));
                            assert(below(before, other));
                            assert(before[here as int] <= other[here as int]);
                            assert forall|j: int| 0 <= j < levels@.len() implies #[trigger] levels@[j]
                                <= other[j] by {
                                assert(before[j] <= other[j]);
                            }
                        }
                        assert(below(seeds, levels@)) by {
                            assert forall|j: int| 0 <= j < seeds.len() implies #[trigger] seeds[j]
                                <= levels@[j] by {
                                assert(seeds[j] <= before[j]);
                            }
                        }
                        assert forall|x2: u32, y2: u32, z2: u32, k2: int|
                            (#[trigger] spread(levels@, solid@, size, x2, y2, z2, k2)) || queued(
                                levels@,
                                queue@,
                                size,
                                x2,
                                y2,
                                z2,
                            ) || ((x2, y2, z2) == (x, y, z) && k2 >= k + 1) by {
                            assert(spread(before, solid@, size, x2, y2, z2, k2) || queued(
                                before,
                                qb,
                                size,
                                x2,
                                y2,
                                z2,
                            ) || ((x2, y2, z2) == (x, y, z) && k2 >= k));
                            if in_grid(size, x2 as int, y2 as int, z2 as int) {
                                lemma_cell_index_bounds(size, x2 as int, y2 as int, z2 as int);
                                if (x2, y2, z2) == (nx, ny, nz) {
                                    assert(queued(levels@, queue@, size, x2, y2, z2));
                                } else {
                                    if cell_index(size, x2 as int, y2 as int, z2 as int) == i {
                                        lemma_cell_index_injective(
                                            size,
                                            x2 as int,
                                            y2 as int,
                                            z2 as int,
                                            nx as int,
                                            ny as int,
                                            nz as int,
                                        );
                                    }
                                    if 0 <= k2 < 6 && has_neighbor(
                                        size,
                                        x2 as int,
                                        y2 as int,
                                        z2 as int,
                                        k2,
                                    ) {
                                        lemma_cell_index_bounds(
                                            size,
                                            x2 + step(k2).0,
                                            y2 + step(k2).1,
                                            z2 + step(k2).2,
                                        );
                                    }
                                }
                            }
                        }
                        proof {
                            if here == i {
                                lemma_cell_index_injective(
                                    size,
                                    x as int,
                                    y as int,
                                    z as int,
                                    nx as int,
                                    ny as int,
                                    nz as int,
                                );
                            }
                        }
                    }
                },
                None => {},
            }
            k += 1;
        }
    }
    assert(closed_under_spread(levels@, solid@, size)) by {
        assert forall|x: u32, y: u32, z: u32, k: int| #[trigger]
            spread(levels@, solid@, size, x, y, z, k) by {
            assert(!queued(levels@, queue@, size, x, y, z));
        }
    }
}

/// The seed of the sky channel in a cell.
pub open spec fn sky_seed(world: World, registry: Registry, x: int, y: int, z: int) -> u8 {
    if forall|up: int| y <= up < world.size[1] ==> !#[trigger] blocks_light(world, registry, x, up, z) {
        15
    } else {
        0
    }
}

/// The brighter of a level and what a neighbor seeds.
pub open spec fn brighter(a: u8, b: u8) -> u8 {
    if a < b {
        b
    } else {
        a
    }
}

/// What the emitter next to a cell in direction `k` seeds there.
pub open spec fn neighbor_seed(
    world: World,
    registry: Registry,
    x: int,
    y: int,
    z: int,
    k: int,
) -> u8 {
    if has_neighbor(world.size, x, y, z, k) {
        let e = emission(world, registry, x + step(k).0, y + step(k).1, z + step(k).2);
        if e > 0 {
            (e - 1) as u8
        } else {
            0
        }
    } else {
        0
    }
}

/// The brightest of a cell's own emission and the first `k` neighbor seeds.
pub open spec fn seed_up_to(
    world: World,
    registry: Registry,
    x: int,
    y: int,
    z: int,
    k: int,
) -> u8
    decreases k,
{
    if k <= 0 {
        emission(world, registry, x, y, z)
    } else {
        brighter(
            seed_up_to(world, registry, x, y, z, k - 1),
            neighbor_seed(world, registry, x, y, z, k - 1),
        )
    }
}

/// The seed of the block channel in a cell: its own emission, or one less
/// than that of the brightest emitter next to it.
pub open spec fn block_seed(world: World, registry: Registry, x: int, y: int, z: int) -> u8 {
    seed_up_to(world, registry, x, y, z, 6)
}

pub open spec fn solid_grid(world: World, registry: Registry) -> Seq<bool> {
    tabulated(world.size, |x: int, y: int, z: int| blocks_light(world, registry, x, y, z))
}

pub open spec fn sky_seeds(world: World, registry: Registry) -> Seq<u8> {
    tabulated(world.size, |x: int, y: int, z: int| sky_seed(world, registry, x, y, z))
}

pub open spec fn block_seeds(world: World, registry: Registry) -> Seq<u8> {
    tabulated(world.size, |x: int, y: int, z: int| block_seed(world, registry, x, y, z))
}

/// Flood-filled light grid, indexed like the world grid.
pub struct LightGrid {
    /// (sky, block) per voxel.
    pub levels: Vec<LightLevels>,
    pub size: [u32; 3],
}

/// One channel of a light grid.
pub open spec fn channel(levels: Seq<LightLevels>, c: int) -> Seq<u8> {
    Seq::new(levels.len(), |i: int| levels[i]@[c])
}

fn cell_blocks(world: &World, registry: &Registry, x: u32, y: u32, z: u32) -> (r: bool)
    requires
        world.wf(),
        in_grid(world.size, x as int, y as int, z as int),
    ensures
        r == blocks_light(*world, *registry, x as int, y as int, z as int),
{
    match world.get(x as i64, y as i64, z as i64) {
        None => true,
        Some((id, state)) => {
            if id == 0 {
                return false;
            }
            match registry.block_by_id(id) {
                None => true,
                Some(b) => match b.state(state) {
                    None => true,
                    Some(s) => s.occlusion.hides_neighbor(),
                },
            }
        },
    }
}

fn cell_emission(world: &World, registry: &Registry, x: u32, y: u32, z: u32) -> (r: u8)
    requires
        world.wf(),
        in_grid(world.size, x as int, y as int, z as int),
    ensures
        r == emission(*world, *registry, x as int, y as int, z as int),
{
    match world.get(x as i64, y as i64, z as i64) {
        None => 0,
        Some((id, _)) => match registry.block_by_id(id) {
            None => 0,
            Some(b) => emitter_level(b.name.as_str()),
        },
    }
}

fn solid_cells(world: &World, registry: &Registry) -> (r: Vec<bool>)
    requires
        world.wf(),
    ensures
        r@ == solid_grid(*world, *registry),
{
    let n: usize = world.blocks.len();
    let mut out: Vec<bool> = Vec::new();
    let mut x: u32 = 0;
    let mut y: u32 = 0;
    let mut z: u32 = 0;
    let mut i: usize = 0;
    proof {
        lemma_end_index(world.size);
    }
    assert(n > 0 ==> in_grid(world.size, 0, 0, 0)) by {
        if n > 0 {
            lemma_cell_of_coords(world.size, 0);
        }
    }
    while i < n
        invariant
            world.wf(),
            n == volume(world.size),
            i <= n,
            i < n ==> in_grid(world.size, x as int, y as int, z as int),
            i == cell_index(world.size, x as int, y as int, z as int),
            out@ == solid_grid(*world, *registry).take(i as int),
        decreases n - i,
    {
        proof {
            lemma_coords_of_cell(world.size, x as int, y as int, z as int);
            lemma_end_index(world.size);
        }
        out.push(cell_blocks(world, registry, x, y, z));
        let next = advance(world.size, x, y, z);
        x = next.0;
        y = next.1;
        z = next.2;
        i += 1;
        assert(out@ == solid_grid(*world, *registry).take(i as int));
    }
    out
}

fn emitter_seeds(world: &World, registry: &Registry) -> (r: Vec<u8>)
    requires
        world.wf(),
    ensures
        r@ == block_seeds(*world, *registry),
{
    let n: usize = world.blocks.len();
    let mut out: Vec<u8> = Vec::new();
    let mut x: u32 = 0;
    let mut y: u32 = 0;
    let mut z: u32 = 0;
    let mut i: usize = 0;
    proof {
        lemma_end_index(world.size);
    }
    assert(n > 0 ==> in_grid(world.size, 0, 0, 0)) by {
        if n > 0 {
            lemma_cell_of_coords(world.size, 0);
        }
    }
    while i < n
        invariant
            world.wf(),
            n == volume(world.size),
            i <= n,
            i < n ==> in_grid(world.size, x as int, y as int, z as int),
            i == cell_index(world.size, x as int, y as int, z as int),
            out@ == block_seeds(*world, *registry).take(i as int),
        decreases n - i,
    {
        proof {
            lemma_coords_of_cell(world.size, x as int, y as int, z as int);
            lemma_end_index(world.size);
        }
        let mut level: u8 = cell_emission(world, registry, x, y, z);
        let mut k: usize = 0;
        while k < 6
            invariant
                world.wf(),
                k <= 6,
                in_grid(world.size, x as int, y as int, z as int),
                level == seed_up_to(*world, *registry, x as int, y as int, z as int, k as int),
            decreases 6 - k,
        {
            if let Some((nx, ny, nz)) = neighbor(world.size, x, y, z, k) {
                let e = cell_emission(world, registry, nx, ny, nz);
                if e > 0 && level < e - 1 {
                    level = e - 1;
                }
            }
            k += 1;
        }
        out.push(level);
        let next = advance(world.size, x, y, z);
        x = next.0;
        y = next.1;
        z = next.2;
        i += 1;
        assert(out@ == block_seeds(*world, *registry).take(i as int));
    }
    out
}

/// The sky seed of a cell follows from that of the cell above.
proof fn lemma_sky_seed_step(world: World, registry: Registry, x: int, y: int, z: int)
    requires
        in_grid(world.size, x, y, z),
    ensures
        sky_seed(world, registry, x, y, z) == (if blocks_light(world, registry, x, y, z) {
            0u8
        } else if y + 1 == world.size[1] {
            15u8
        } else {
            sky_seed(world, registry, x, y + 1, z)
        }),
{
    if !blocks_light(world, registry, x, y, z) && y + 1 < world.size[1] {
        if sky_seed(world, registry, x, y + 1, z) == 15 {
            assert forall|up: int| y <= up < world.size[1] implies !#[trigger] blocks_light(
                world,
                registry,
                x,
                up,
                z,
            ) by {}
        }
    }
}

fn sky_columns(world: &World, registry: &Registry, solid: &Vec<bool>) -> (r: Vec<u8>)
    requires
        world.wf(),
        solid@ == solid_grid(*world, *registry),
    ensures
        r@ == sky_seeds(*world, *registry),
{
    let n: usize = world.blocks.len();
    let ghost seeds = sky_seeds(*world, *registry);
    let mut out: Vec<u8> = vec![0; n];
    if n == 0 {
        assert(out@ == seeds);
        return out;
    }
    let ghost a = world.size[0] as int;
    let ghost b = world.size[1] as int;
    let ghost c = world.size[2] as int;
    proof {
        lemma_cell_of_coords(world.size, 0);
        lemma_end_index(world.size);
        assert(a * c <= a * b * c) by (nonlinear_arith)
            requires
                a >= 1,
                b >= 1,
                c >= 1,
        ;
        assert((b * c + 0) * a == b * (a * c)) by (nonlinear_arith);
    }
    let plane: usize = (world.size[0] * world.size[2]) as usize;
    let mut y: u32 = world.size[1];
    let mut start: usize = n;
    while y > 0
        invariant
            world.wf(),
            solid@ == solid_grid(*world, *registry),
            seeds == sky_seeds(*world, *registry),
            n == volume(world.size),
            out.len() == n,
            a == world.size[0] && b == world.size[1] && c == world.size[2],
            plane == a * c,
            y <= b,
            start == y * plane,
            start <= n,
            forall|j: int| start <= j < n ==> out@[j] == seeds[j],
        decreases y,
    {
        assert(y * plane == (y - 1) * plane + plane) by (nonlinear_arith);
        assert(0 <= (y - 1) * plane) by (nonlinear_arith)
            requires
                y >= 1,
                plane >= 0,
        ;
        y -= 1;
        let end: usize = start;
        start = start - plane;
        let mut i: usize = start;
        while i < end
            invariant
                world.wf(),
                solid@ == solid_grid(*world, *registry),
                seeds == sky_seeds(*world, *registry),
                n == volume(world.size),
                out.len() == n,
                a == world.size[0] && b == world.size[1] && c == world.size[2],
                plane == a * c,
                y < b,
                start == y * plane,
                end == start + plane,
                end <= n,
                start <= i <= end,
                forall|j: int| start <= j < i ==> out@[j] == seeds[j],
                forall|j: int| end <= j < n ==> out@[j] == seeds[j],
            decreases end - i,
        {
            let ghost (px, py, pz) = coords(world.size, i as int);
            proof {
                lemma_cell_of_coords(world.size, i as int);
                assert(py == y) by (nonlinear_arith)
                    requires
                        (py * c + pz) * a + px == i,
                        0 <= px < a,
                        0 <= pz < c,
                        y * (a * c) <= i < y * (a * c) + a * c,
                ;
                lemma_sky_seed_step(*world, *registry, px, py, pz);
                if y + 1 < b {
                    assert((py * c + pz) * a + px + a * c == ((py + 1) * c + pz) * a + px)
                        by (nonlinear_arith);
                    lemma_coords_of_cell(world.size, px, py + 1, pz);
                    lemma_cell_index_bounds(world.size, px, py + 1, pz);
                    assert(cell_index(world.size, px, py + 1, pz) == i + plane);
                    assert(seeds[i + plane] == sky_seed(*world, *registry, px, py + 1, pz));
                    assert(out@[i + plane] == seeds[i + plane]);
                }
                assert(seeds[i as int] == sky_seed(*world, *registry, px, py, pz));
                assert(solid@[i as int] == blocks_light(*world, *registry, px, py, pz));
            }
            if !solid[i] {
                let level: u8 = if y + 1 == world.size[1] { 15 } else { out[i + plane] };
                out.set(i, level);
            } else {
                out.set(i, 0);
            }
            i += 1;
        }
    }
    assert(start == 0) by (nonlinear_arith)
        requires
            start == y * plane,
            y == 0,
    ;
    assert(out@ == seeds);
    out
}

/// The entries that start the spreading: every cell brighter than 1.
fn lit_cells(levels: &Vec<u8>, size: [u32; 3]) -> (r: VecDeque<(u32, u32, u32, u8)>)
    requires
        size_fits(size),
        levels.len() == volume(size),
    ensures
        entries_ok(levels@, r@, size),
        forall|x: u32, y: u32, z: u32|
            in_grid(size, x as int, y as int, z as int) && levels@[cell_index(
                size,
                x as int,
                y as int,
                z as int,
            )] > 1 ==> #[trigger] queued(levels@, r@, size, x, y, z),
{
    let n: usize = levels.len();
    let mut queue: VecDeque<(u32, u32, u32, u8)> = VecDeque::new();
    let mut x: u32 = 0;
    let mut y: u32 = 0;
    let mut z: u32 = 0;
    let mut i: usize = 0;
    proof {
        lemma_end_index(size);
    }
    assert(n > 0 ==> in_grid(size, 0, 0, 0)) by {
        if n > 0 {
            lemma_cell_of_coords(size, 0);
        }
    }
    while i < n
        invariant
            n == volume(size),
            levels.len() == n,
            i <= n,
            i < n ==> in_grid(size, x as int, y as int, z as int),
            i == cell_index(size, x as int, y as int, z as int),
            entries_ok(levels@, queue@, size),
            forall|x2: u32, y2: u32, z2: u32|
                in_grid(size, x2 as int, y2 as int, z2 as int) && cell_index(
                    size,
                    x2 as int,
                    y2 as int,
                    z2 as int,
                ) < i && levels@[cell_index(size, x2 as int, y2 as int, z2 as int)] > 1
                    ==> #[trigger] queued(levels@, queue@, size, x2, y2, z2),
        decreases n - i,
    {
        let ghost before = queue@;
        proof {
            lemma_end_index(size);
        }
        let level: u8 = levels[i];
        if level > 1 {
            queue.push_back((x, y, z, level));
            assert(queue@[before.len() as int] == (x, y, z, level));
            assert forall|j: int| 0 <= j < before.len() implies queue@[j] == before[j] by {}
        }
        assert forall|x2: u32, y2: u32, z2: u32|
            in_grid(size, x2 as int, y2 as int, z2 as int) && cell_index(
                size,
                x2 as int,
                y2 as int,
                z2 as int,
            ) < i + 1 && levels@[cell_index(size, x2 as int, y2 as int, z2 as int)]
                > 1 implies #[trigger] queued(levels@, queue@, size, x2, y2, z2) by {
            if cell_index(size, x2 as int, y2 as int, z2 as int) == i {
                lemma_cell_index_injective(
                    size,
                    x as int,
                    y as int,
                    z as int,
                    x2 as int,
                    y2 as int,
                    z2 as int,
                );
                assert(queue@[before.len() as int] == (x2, y2, z2, level));
            } else {
                assert(queued(levels@, before, size, x2, y2, z2));
                let e = (
                    x2,
                    y2,
                    z2,
                    levels@[cell_index(size, x2 as int, y2 as int, z2 as int)],
                );
                let j = before.index_of(e);
                assert(queue@[j] == e);
            }
        }
        let next = advance(size, x, y, z);
        x = next.0;
        y = next.1;
        z = next.2;
        i += 1;
    }
    assert forall|x2: u32, y2: u32, z2: u32|
        in_grid(size, x2 as int, y2 as int, z2 as int) && levels@[cell_index(
            size,
            x2 as int,
            y2 as int,
            z2 as int,
        )] > 1 implies #[trigger] queued(levels@, queue@, size, x2, y2, z2) by {
        lemma_cell_index_bounds(size, x2 as int, y2 as int, z2 as int);
    }
    queue
}

impl LightGrid {
    pub open spec fn wf(&self) -> bool {
        size_fits(self.size) && self.levels.len() == volume(self.size)
    }

    /// Computes sky and block light for `world`: each channel is the flood of
    /// its seeds through the cells that do not block light.
    pub fn compute(world: &World, registry: &Registry) -> (r: LightGrid)
        requires
            world.wf(),
        ensures
            r.wf(),
            r.size == world.size,
            flooded(
                channel(r.levels@, 0),
                sky_seeds(*world, *registry),
                solid_grid(*world, *registry),
                world.size,
            ),
            flooded(
                channel(r.levels@, 1),
                block_seeds(*world, *registry),
                solid_grid(*world, *registry),
                world.size,
            ),
    {
        let size = world.size;
        let solid = solid_cells(world, registry);
        let mut sky = sky_columns(world, registry, &solid);
        let mut queue = lit_cells(&sky, size);
        bfs(&mut sky, &mut queue, &solid, size);
        let mut block = emitter_seeds(world, registry);
        let mut queue2 = lit_cells(&block, size);
        bfs(&mut block, &mut queue2, &solid, size);
        let mut levels: Vec<LightLevels> = Vec::new();
        let mut i: usize = 0;
        while i < sky.len()
            invariant
                i <= sky.len() == block.len(),
                levels.len() == i,
                forall|k: int|
                    0 <= k < i ==> (#[trigger] levels@[k])@[0] == sky@[k] && levels@[k]@[1]
                        == block@[k],
            decreases sky.len() - i,
        {
            levels.push([sky[i], block[i]]);
            i += 1;
        }
        assert(channel(levels@, 0) == sky@);
        assert(channel(levels@, 1) == block@);
        LightGrid { levels, size }
    }

    /// What a query answers: nothing outside the grid.
    pub open spec fn at(&self, x: int, y: int, z: int) -> Option<LightLevels> {
        if in_grid(self.size, x, y, z) {
            Some(self.levels@[cell_index(self.size, x, y, z)])
        } else {
            None
        }
    }

    /// Light levels at one voxel; `None` outside the grid.
    pub fn get(&self, x: i64, y: i64, z: i64) -> (r: Option<LightLevels>)
        requires
            self.wf(),
        ensures
            r == self.at(x as int, y as int, z as int),
    {
        if x < 0 || y < 0 || z < 0 || x >= self.size[0] as i64 || y >= self.size[1] as i64 || z
            >= self.size[2] as i64 {
            return None;
        }
        Some(self.levels[flat(self.size, x as u32, y as u32, z as u32)])
    }

    /// Sky light of the block above `y` (the face light of a top face); full
    /// sky outside the grid.
    pub fn sky_above(&self, x: i64, y: i64, z: i64) -> (r: u8)
        requires
            self.wf(),
            y < i64::MAX,
        ensures
            r == (match self.at(x as int, y + 1, z as int) {
                Some(l) => l@[0],
                None => 15u8,
            }),
    {
        match self.get(x, y + 1, z) {
            Some(l) => l[0],
            None => 15,
        }
    }
}

proof fn lemma_seed_bound(world: World, registry: Registry, x: int, y: int, z: int, k: int)
    ensures
        seed_up_to(world, registry, x, y, z, k) <= 15,
    decreases k,
{
    if k > 0 {
        lemma_seed_bound(world, registry, x, y, z, k - 1);
    }
}

/// Both channels stay within 0..=15.
pub proof fn law_levels_at_most_15(world: World, registry: Registry, grid: LightGrid, i: int)
    requires
        world.wf(),
        grid.wf(),
        grid.size == world.size,
        flooded(
            channel(grid.levels@, 0),
            sky_seeds(world, registry),
            solid_grid(world, registry),
            world.size,
        ),
        flooded(
            channel(grid.levels@, 1),
            block_seeds(world, registry),
            solid_grid(world, registry),
            world.size,
        ),
        0 <= i < grid.levels.len(),
    ensures
        grid.levels@[i]@[0] <= 15,
        grid.levels@[i]@[1] <= 15,
{
    let solid = solid_grid(world, registry);
    assert(solid.len() == volume(world.size)) by {
        lemma_volume_nonnegative(world.size);
    }
    let sky = channel(grid.levels@, 0);
    let block = channel(grid.levels@, 1);
    law_flood_is_bounded(sky, sky_seeds(world, registry), solid, world.size, 15);
    assert forall|j: int| 0 <= j < block_seeds(world, registry).len() implies #[trigger] block_seeds(
        world,
        registry,
    )[j] <= 15 by {
        let (x, y, z) = coords(world.size, j);
        lemma_seed_bound(world, registry, x, y, z, 6);
    }
    law_flood_is_bounded(block, block_seeds(world, registry), solid, world.size, 15);
    assert(sky[i] <= 15);
    assert(block[i] <= 15);
}

proof fn lemma_volume_nonnegative(size: [u32; 3])
    ensures
        volume(size) >= 0,
{
    let a = size[0] as int;
    let b = size[1] as int;
    let c = size[2] as int;
    assert(a * b * c >= 0) by (nonlinear_arith)
        requires
            a >= 0,
            b >= 0,
            c >= 0,
    ;
}

/// Two cells share a face: their coordinates differ by one, either way, on
/// exactly one of the axes.
pub open spec fn share_a_face(x: int, y: int, z: int, x2: int, y2: int, z2: int) -> bool {
    (x2 - x == 1 || x2 - x == -1) && y2 == y && z2 == z || (y2 - y == 1 || y2 - y == -1) && x2 == x
        && z2 == z || (z2 - z == 1 || z2 - z == -1) && x2 == x && y2 == y
}

/// Light has spread over every face, whichever way it looks.
proof fn lemma_spread_over_faces(
    levels: Seq<u8>,
    solid: Seq<bool>,
    size: [u32; 3],
    x: int,
    y: int,
    z: int,
    x2: int,
    y2: int,
    z2: int,
)
    requires
        closed_under_spread(levels, solid, size),
        in_grid(size, x, y, z),
        in_grid(size, x2, y2, z2),
        share_a_face(x, y, z, x2, y2, z2),
        !solid[cell_index(size, x2, y2, z2)],
    ensures
        levels[cell_index(size, x2, y2, z2)] + 1 >= levels[cell_index(size, x, y, z)],
{
    let k = if x2 == x + 1 {
        0int
    } else if x2 == x - 1 {
        1
    } else if y2 == y + 1 {
        2
    } else if y2 == y - 1 {
        3
    } else if z2 == z + 1 {
        4
    } else {
        5
    };
    assert(spread(levels, solid, size, x as u32, y as u32, z as u32, k));
}

/// Any two cells that share a face and do not block light are lit alike, to
/// within one level, in both channels.
pub proof fn law_open_neighbors_are_lit_alike(
    world: World,
    registry: Registry,
    grid: LightGrid,
    x: int,
    y: int,
    z: int,
    x2: int,
    y2: int,
    z2: int,
)
    requires
        world.wf(),
        grid.wf(),
        grid.size == world.size,
        flooded(
            channel(grid.levels@, 0),
            sky_seeds(world, registry),
            solid_grid(world, registry),
            world.size,
        ),
        flooded(
            channel(grid.levels@, 1),
            block_seeds(world, registry),
            solid_grid(world, registry),
            world.size,
        ),
        in_grid(world.size, x, y, z),
        in_grid(world.size, x2, y2, z2),
        (x2 - x == 1 || x2 - x == -1) && y2 == y && z2 == z || (y2 - y == 1 || y2 - y == -1) && x2
            == x && z2 == z || (z2 - z == 1 || z2 - z == -1) && x2 == x && y2 == y,
        !blocks_light(world, registry, x, y, z),
        !blocks_light(world, registry, x2, y2, z2),
    ensures
        ({
            let a = grid.at(x, y, z)->0;
            let b = grid.at(x2, y2, z2)->0;
            &&& grid.at(x, y, z) is Some && grid.at(x2, y2, z2) is Some
            &&& a[0] <= b[0] + 1 && b[0] <= a[0] + 1
            &&& a[1] <= b[1] + 1 && b[1] <= a[1] + 1
        }),
{
    let size = world.size;
    let solid = solid_grid(world, registry);
    lemma_cell_index_bounds(size, x, y, z);
    lemma_cell_index_bounds(size, x2, y2, z2);
    lemma_coords_of_cell(size, x, y, z);
    lemma_coords_of_cell(size, x2, y2, z2);
    assert(!solid[cell_index(size, x, y, z)]);
    assert(!solid[cell_index(size, x2, y2, z2)]);
    lemma_spread_over_faces(channel(grid.levels@, 0), solid, size, x, y, z, x2, y2, z2);
    lemma_spread_over_faces(channel(grid.levels@, 0), solid, size, x2, y2, z2, x, y, z);
    lemma_spread_over_faces(channel(grid.levels@, 1), solid, size, x, y, z, x2, y2, z2);
    lemma_spread_over_faces(channel(grid.levels@, 1), solid, size, x2, y2, z2, x, y, z);
}

/// The distance of two coordinates on one axis.
pub open spec fn apart(a: int, b: int) -> int {
    if a < b {
        b - a
    } else {
        a - b
    }
}

/// The steps from one cell to another, over faces only.
pub open spec fn steps_between(x: int, y: int, z: int, x2: int, y2: int, z2: int) -> int {
    apart(x, x2) + apart(y, y2) + apart(z, z2)
}

/// Where nothing blocks light, a level at a cell leaves at least that level
/// less the distance everywhere else.
proof fn lemma_light_carries(
    levels: Seq<u8>,
    solid: Seq<bool>,
    size: [u32; 3],
    x: int,
    y: int,
    z: int,
    x2: int,
    y2: int,
    z2: int,
)
    requires
        closed_under_spread(levels, solid, size),
        forall|a: int, b: int, c: int|
            in_grid(size, a, b, c) ==> !solid[#[trigger] cell_index(size, a, b, c)],
        in_grid(size, x, y, z),
        in_grid(size, x2, y2, z2),
    ensures
        levels[cell_index(size, x2, y2, z2)] + steps_between(x, y, z, x2, y2, z2)
            >= levels[cell_index(size, x, y, z)],
    decreases steps_between(x, y, z, x2, y2, z2),
{
    if steps_between(x, y, z, x2, y2, z2) > 0 {
        let (a, b, c) = if x < x2 {
            (x2 - 1, y2, z2)
        } else if x > x2 {
            (x2 + 1, y2, z2)
        } else if y < y2 {
            (x2, y2 - 1, z2)
        } else if y > y2 {
            (x2, y2 + 1, z2)
        } else if z < z2 {
            (x2, y2, z2 - 1)
        } else {
            (x2, y2, z2 + 1)
        };
        lemma_light_carries(levels, solid, size, x, y, z, a, b, c);
        lemma_spread_over_faces(levels, solid, size, a, b, c, x2, y2, z2);
    }
}

/// In an open world a lone emitter of level `l` lights every cell by its level
/// less the distance, the same on every side, and no cell beyond its reach.
pub proof fn law_lone_emitter_lights_by_distance(
    world: World,
    registry: Registry,
    grid: LightGrid,
    ex: int,
    ey: int,
    ez: int,
    x: int,
    y: int,
    z: int,
)
    requires
        world.wf(),
        grid.wf(),
        grid.size == world.size,
        flooded(
            channel(grid.levels@, 1),
            block_seeds(world, registry),
            solid_grid(world, registry),
            world.size,
        ),
        in_grid(world.size, ex, ey, ez),
        in_grid(world.size, x, y, z),
        forall|a: int, b: int, c: int|
            in_grid(world.size, a, b, c) ==> !#[trigger] blocks_light(world, registry, a, b, c),
        forall|a: int, b: int, c: int|
            in_grid(world.size, a, b, c) && (a, b, c) != (ex, ey, ez) ==> #[trigger] emission(
                world,
                registry,
                a,
                b,
                c,
            ) == 0,
    ensures
        ({
            let l = emission(world, registry, ex, ey, ez) as int;
            let d = apart(ex, x) + apart(ey, y) + apart(ez, z);
            grid.levels@[cell_index(world.size, x, y, z)]@[1] == if d < l {
                l - d
            } else {
                0int
            }
        }),
{
    let size = world.size;
    let l = emission(world, registry, ex, ey, ez) as int;
    let solid = solid_grid(world, registry);
    let seeds = block_seeds(world, registry);
    let levels = channel(grid.levels@, 1);
    assert forall|a: int, b: int, c: int| in_grid(size, a, b, c) implies !solid[
        #[trigger] cell_index(size, a, b, c)
    ] by {
        lemma_cell_index_bounds(size, a, b, c);
        lemma_coords_of_cell(size, a, b, c);
        assert(!blocks_light(world, registry, a, b, c));
    }
    let falls = |a: int, b: int, c: int|
        {
            let d = steps_between(ex, ey, ez, a, b, c);
            if d < l {
                (l - d) as u8
            } else {
                0u8
            }
        };
    let cone = tabulated(size, falls);
    assert(below(seeds, cone)) by {
        assert forall|i: int| 0 <= i < seeds.len() implies #[trigger] seeds[i] <= cone[i] by {
            lemma_cell_of_coords(size, i);
            let (a, b, c) = coords(size, i);
            lemma_lone_seed(world, registry, ex, ey, ez, a, b, c);
        }
    }
    assert(closed_under_spread(cone, solid, size)) by {
        assert forall|a: u32, b: u32, c: u32, k: int| #[trigger]
            spread(cone, solid, size, a, b, c, k) by {
            if in_grid(size, a as int, b as int, c as int) && 0 <= k < 6 && has_neighbor(
                size,
                a as int,
                b as int,
                c as int,
                k,
            ) {
                let (p, q, r) = (a + step(k).0, b + step(k).1, c + step(k).2);
                lemma_cell_index_bounds(size, a as int, b as int, c as int);
                lemma_coords_of_cell(size, a as int, b as int, c as int);
                lemma_cell_index_bounds(size, p, q, r);
                lemma_coords_of_cell(size, p, q, r);
            }
        }
    }
    assert(below(levels, cone));
    lemma_cell_index_bounds(size, x, y, z);
    lemma_coords_of_cell(size, x, y, z);
    lemma_cell_index_bounds(size, ex, ey, ez);
    lemma_coords_of_cell(size, ex, ey, ez);
    let i = cell_index(size, x, y, z);
    assert(levels[i] <= cone[i]);
    let e = cell_index(size, ex, ey, ez);
    lemma_own_seed(world, registry, ex, ey, ez, 6);
    assert(seeds[e] <= levels[e]);
    lemma_light_carries(levels, solid, size, ex, ey, ez, x, y, z);
}

/// A cell is seeded at least with its own emission.
proof fn lemma_own_seed(world: World, registry: Registry, x: int, y: int, z: int, k: int)
    ensures
        seed_up_to(world, registry, x, y, z, k) >= emission(world, registry, x, y, z),
    decreases k,
{
    if k > 0 {
        lemma_own_seed(world, registry, x, y, z, k - 1);
    }
}

/// A lone emitter seeds its own cell and those next to it.
proof fn lemma_lone_seed(
    world: World,
    registry: Registry,
    ex: int,
    ey: int,
    ez: int,
    x: int,
    y: int,
    z: int,
)
    requires
        in_grid(world.size, x, y, z),
        forall|a: int, b: int, c: int|
            in_grid(world.size, a, b, c) && (a, b, c) != (ex, ey, ez) ==> #[trigger] emission(
                world,
                registry,
                a,
                b,
                c,
            ) == 0,
    ensures
        ({
            let l = emission(world, registry, ex, ey, ez) as int;
            let d = steps_between(ex, ey, ez, x, y, z);
            block_seed(world, registry, x, y, z) <= if d < l {
                l - d
            } else {
                0int
            }
        }),
{
    reveal_with_fuel(seed_up_to, 7);
}

/// What blocks light: a full occluder, and whatever the registry does not
/// know; never air, and never a known state that does not occlude.
pub proof fn law_occluders_block_light(world: World, registry: Registry, x: int, y: int, z: int)
    ensures
        world.cell(x, y, z).0 == 0 ==> !blocks_light(world, registry, x, y, z),
        world.cell(x, y, z).0 != 0 && (registry.state_at(
            world.cell(x, y, z).0,
            world.cell(x, y, z).1,
        ) matches Some(s) && s.occlusion == Occlusion::Full) ==> blocks_light(
            world,
            registry,
            x,
            y,
            z,
        ),
        world.cell(x, y, z).0 != 0 && registry.state_at(
            world.cell(x, y, z).0,
            world.cell(x, y, z).1,
        ) is None ==> blocks_light(world, registry, x, y, z),
        (registry.state_at(world.cell(x, y, z).0, world.cell(x, y, z).1) matches Some(s)
            && s.occlusion == Occlusion::Never) ==> !blocks_light(world, registry, x, y, z),
{
}

/// The sky shines straight down: a cell with nothing that blocks light in its
/// column, from the cell upward, has the full level 15. Below a roof it has
/// less, and no more than what comes over an open face from its side.
pub proof fn law_sky_shines_down(
    world: World,
    registry: Registry,
    grid: LightGrid,
    x: int,
    y: int,
    z: int,
)
    requires
        world.wf(),
        grid.wf(),
        grid.size == world.size,
        flooded(
            channel(grid.levels@, 0),
            sky_seeds(world, registry),
            solid_grid(world, registry),
            world.size,
        ),
        in_grid(world.size, x, y, z),
    ensures
        (forall|up: int| y <= up < world.size[1] ==> !#[trigger] blocks_light(world, registry, x, up, z))
            ==> grid.levels@[cell_index(world.size, x, y, z)]@[0] == 15,
        (exists|up: int| y <= up < world.size[1] && #[trigger] blocks_light(world, registry, x, up, z))
            ==> grid.levels@[cell_index(world.size, x, y, z)]@[0] <= 14,
        blocks_light(world, registry, x, y, z) ==> grid.levels@[cell_index(
            world.size,
            x,
            y,
            z,
        )]@[0] == 0,
{
    let size = world.size;
    let solid = solid_grid(world, registry);
    let seeds = sky_seeds(world, registry);
    let levels = channel(grid.levels@, 0);
    let i = cell_index(size, x, y, z);
    lemma_cell_index_bounds(size, x, y, z);
    lemma_coords_of_cell(size, x, y, z);
    assert(seeds[i] == sky_seed(world, registry, x, y, z));
    assert(seeds[i] <= levels[i]);
    let cap = Seq::new(
        seeds.len(),
        |j: int|
            if seeds[j] == 15 {
                15u8
            } else if solid[j] {
                0u8
            } else {
                14u8
            },
    );
    assert(below(seeds, cap));
    assert(closed_under_spread(cap, solid, size)) by {
        assert forall|a: u32, b: u32, c: u32, k: int| #[trigger]
            spread(cap, solid, size, a, b, c, k) by {
            if in_grid(size, a as int, b as int, c as int) && 0 <= k < 6 && has_neighbor(
                size,
                a as int,
                b as int,
                c as int,
                k,
            ) {
                lemma_cell_index_bounds(size, a as int, b as int, c as int);
                lemma_cell_index_bounds(size, a + step(k).0, b + step(k).1, c + step(k).2);
            }
        }
    }
    assert(below(levels, cap));
    assert(levels[i] <= cap[i]);
    if blocks_light(world, registry, x, y, z) {
        assert(solid[i]);
    }
}

/// The emitters and their levels: torches, lanterns and sea lanterns 14, the
/// other lamps and fires 15.
pub proof fn law_emitters_have_their_level()
    ensures
        emission_of_name("torch"@) == 14,
        emission_of_name("soul_torch"@) == 14,
        emission_of_name("redstone_torch"@) == 14,
        emission_of_name("lantern"@) == 14,
        emission_of_name("sea_lantern"@) == 14,
        emission_of_name("glowstone"@) == 15,
        emission_of_name("shroomlight"@) == 15,
        emission_of_name("ochre_froglight"@) == 15,
        emission_of_name("verdant_froglight"@) == 15,
        emission_of_name("pearlescent_froglight"@) == 15,
        emission_of_name("jack_o_lantern"@) == 15,
        emission_of_name("campfire"@) == 15,
        emission_of_name("soul_lantern"@) == 15,
        emission_of_name("end_rod"@) == 15,
        emission_of_name("candle"@) == 15,
        emission_of_name("beacon"@) == 15,
        emission_of_name("conduit"@) == 15,
        emission_of_name("respawn_anchor"@) == 15,
        emission_of_name("magma_block"@) == 15,
        emission_of_name("fire"@) == 15,
        emission_of_name("soul_fire"@) == 15,
        emission_of_name("furnace"@) == 15,
        emission_of_name("redstone_lamp"@) == 15,
        emission_of_name("crying_obsidian"@) == 15,
        emission_of_name("lava"@) == 15,
        emission_of_name("light"@) == 15,
        forall|name: Seq<char>| #[trigger]
            emission_of_name(name) == 0 || emission_of_name(name) == 14 || emission_of_name(name)
                == 15,
        emission_of_name("stone"@) == 0,
        emission_of_name("glass"@) == 0,
        emission_of_name("water"@) == 0,
        emission_of_name("air"@) == 0,
{
    reveal_strlit("torch");
    assert("torch"@.len() == 5);
    reveal_strlit("soul_torch");
    assert("soul_torch"@.len() == 10);
    reveal_strlit("redstone_torch");
    assert("redstone_torch"@.len() == 14);
    reveal_strlit("lantern");
    assert("lantern"@.len() == 7);
    reveal_strlit("sea_lantern");
    assert("sea_lantern"@.len() == 11);
    reveal_strlit("glowstone");
    assert("glowstone"@.len() == 9);
    reveal_strlit("shroomlight");
    assert("shroomlight"@.len() == 11);
    reveal_strlit("ochre_froglight");
    assert("ochre_froglight"@.len() == 15);
    reveal_strlit("verdant_froglight");
    assert("verdant_froglight"@.len() == 17);
    reveal_strlit("pearlescent_froglight");
    assert("pearlescent_froglight"@.len() == 21);
    reveal_strlit("jack_o_lantern");
    assert("jack_o_lantern"@.len() == 14);
    reveal_strlit("campfire");
    assert("campfire"@.len() == 8);
    reveal_strlit("soul_lantern");
    assert("soul_lantern"@.len() == 12);
    reveal_strlit("end_rod");
    assert("end_rod"@.len() == 7);
    reveal_strlit("candle");
    assert("candle"@.len() == 6);
    reveal_strlit("beacon");
    assert("beacon"@.len() == 6);
    reveal_strlit("conduit");
    assert("conduit"@.len() == 7);
    reveal_strlit("respawn_anchor");
    assert("respawn_anchor"@.len() == 14);
    reveal_strlit("magma_block");
    assert("magma_block"@.len() == 11);
    reveal_strlit("fire");
    assert("fire"@.len() == 4);
    reveal_strlit("soul_fire");
    assert("soul_fire"@.len() == 9);
    reveal_strlit("furnace");
    assert("furnace"@.len() == 7);
    reveal_strlit("redstone_lamp");
    assert("redstone_lamp"@.len() == 13);
    reveal_strlit("crying_obsidian");
    assert("crying_obsidian"@.len() == 15);
    reveal_strlit("lava");
    assert("lava"@.len() == 4);
    reveal_strlit("light");
    assert("light"@.len() == 5);
    reveal_strlit("stone");
    assert("stone"@.len() == 5);
    reveal_strlit("glass");
    assert("glass"@.len() == 5);
    reveal_strlit("water");
    assert("water"@.len() == 5);
    reveal_strlit("air");
    assert("air"@.len() == 3);
    assert("shroomlight"@[1] != "sea_lantern"@[1]);
    assert("jack_o_lantern"@[0] != "redstone_torch"@[0]);
    assert("end_rod"@[0] != "lantern"@[0]);
    assert("conduit"@[0] != "lantern"@[0]);
    assert("respawn_anchor"@[2] != "redstone_torch"@[2]);
    assert("magma_block"@[0] != "sea_lantern"@[0]);
    assert("furnace"@[0] != "lantern"@[0]);
    assert("light"@[0] != "torch"@[0]);
    assert("stone"@[0] != "torch"@[0]);
    assert("stone"@[0] != "light"@[0]);
    assert("glass"@[0] != "torch"@[0]);
    assert("glass"@[0] != "light"@[0]);
    assert("water"@[0] != "torch"@[0]);
    assert("water"@[0] != "light"@[0]);
}

/// No other block emits light, and neither does a cell without a block; a cell
/// emits what its block does.
pub proof fn law_other_blocks_are_dark(
    world: World,
    registry: Registry,
    x: int,
    y: int,
    z: int,
    name: Seq<char>,
)
    ensures
        name != "torch"@ && name != "soul_torch"@ && name != "redstone_torch"@ && name != "lantern"@ && name != "sea_lantern"@ && name != "glowstone"@ && name != "shroomlight"@ && name != "ochre_froglight"@ && name != "verdant_froglight"@ && name != "pearlescent_froglight"@ && name != "jack_o_lantern"@ && name != "campfire"@ && name != "soul_lantern"@ && name != "end_rod"@ && name != "candle"@ && name != "beacon"@ && name != "conduit"@ && name != "respawn_anchor"@ && name != "magma_block"@ && name != "fire"@ && name != "soul_fire"@ && name != "furnace"@ && name != "redstone_lamp"@ && name != "crying_obsidian"@ && name != "lava"@ && name != "light"@ ==> emission_of_name(name) == 0,
        registry.block_at(world.cell(x, y, z).0) is None ==> emission(world, registry, x, y, z) == 0,
        registry.block_at(world.cell(x, y, z).0) matches Some(b) ==> emission(
            world,
            registry,
            x,
            y,
            z,
        ) == emission_of_name(b.name@),
        world.cell(x, y, z).0 == 0 ==> emission(world, registry, x, y, z) == 0,
{
}

} // verus!
