//! World access and light propagation.

use feathered::grid::{advance, World};
use feathered::light::LightGrid;
use feathered::registry::Registry;

fn registry_with(block_names: &[&str]) -> Registry {
    Registry::from_names_for_tests(block_names)
}

#[test]
fn sky_light_falls_off_in_caves() {
    let mut world = World::new([3, 3, 3]);
    let reg = registry_with(&["stone"]);
    // Solid floor at y=0, air above.
    for z in 0..3i64 {
        for x in 0..3i64 {
            world.set(x as u32, 0, z as u32, 1, 0);
        }
    }
    let light = LightGrid::compute(&world, &reg);
    assert_eq!(light.get(1, 2, 1).unwrap()[0], 15);
    assert_eq!(light.get(1, 1, 1).unwrap()[0], 15);
    assert_eq!(light.get(1, 0, 1).unwrap()[0], 0, "inside solid stone");
}

#[test]
fn block_light_spreads_from_torch() {
    let mut world = World::new([7, 3, 7]);
    let reg = registry_with(&["stone", "torch"]);
    for z in 0..7i64 {
        for x in 0..7i64 {
            world.set(x as u32, 0, z as u32, 1, 0); // stone floor
        }
    }
    world.set(3, 1, 3, 2, 0); // torch on the floor
    let light = LightGrid::compute(&world, &reg);
    assert_eq!(light.get(3, 1, 3).unwrap()[1], 14);
    assert_eq!(light.get(3, 1, 4).unwrap()[1], 13);
    assert_eq!(light.get(4, 1, 4).unwrap()[1], 12);
    assert_eq!(light.get(6, 1, 6).unwrap()[1], 8, "manhattan distance 6");
}

#[test]
fn glass_does_not_block_light() {
    let mut world = World::new([3, 4, 1]);
    let reg = registry_with(&["glass"]);
    world.set(0, 0, 0, 1, 0);
    world.set(0, 1, 0, 1, 0); // glass "roof"
    world.set(0, 2, 0, 1, 0);
    let light = LightGrid::compute(&world, &reg);
    assert_eq!(light.get(0, 1, 0).unwrap()[0], 15, "glass passes sky light");
}

#[test]
fn light_outside_the_grid_is_none() {
    let world = World::new([2, 2, 2]);
    let light = LightGrid::compute(&world, &registry_with(&[]));
    assert!(light.get(-1, 0, 0).is_none());
    assert!(light.get(0, 2, 0).is_none());
    assert_eq!(light.get(1, 1, 1).unwrap(), [15, 0]);
    assert_eq!(light.sky_above(1, 1, 1), 15);
}

#[test]
fn roofed_cells_are_lit_from_the_side() {
    // A stone roof over the two cells at x = 0 and x = 1.
    let mut world = World::new([4, 3, 1]);
    let reg = registry_with(&["stone"]);
    for x in 0..2 {
        world.set(x, 2, 0, 1, 0);
    }
    let light = LightGrid::compute(&world, &reg);
    assert_eq!(light.get(2, 0, 0).unwrap()[0], 15);
    assert_eq!(light.get(1, 0, 0).unwrap()[0], 14);
    assert_eq!(light.get(0, 0, 0).unwrap()[0], 13);
}

#[test]
fn cells_hold_what_was_set() {
    let mut world = World::new([3, 4, 5]);
    world.set(1, 2, 3, 7, 9);
    assert_eq!(world.get(1, 2, 3), Some((7, 9)));
    assert_eq!(world.get(1, 2, 2), Some((0, 0)));
    assert_eq!(world.get(3, 0, 0), None);
    assert_eq!(world.get(0, -1, 0), None);
    assert_eq!(world.index(2, 3, 4), Some(59));
    assert_eq!(world.index(3, 0, 0), None);
    // Outside the world nothing is set.
    world.set(9, 9, 9, 1, 1);
    assert!(world.blocks.iter().filter(|b| **b != 0).count() == 1);
}

#[test]
fn cells_are_walked_in_index_order() {
    let size = [2, 3, 2];
    let world = World::new(size);
    let mut at = (0, 0, 0);
    for i in 0..11usize {
        assert_eq!(world.index(at.0, at.1, at.2), Some(i));
        at = advance(size, at.0, at.1, at.2);
    }
}

#[test]
fn registry_ids_start_at_one() {
    let reg = registry_with(&["stone", "glass"]);
    assert_eq!(reg.block_id("stone"), Some(1));
    assert_eq!(reg.block_id("glass"), Some(2));
    assert_eq!(reg.block_id("air"), None);
    assert!(reg.block_by_id(0).is_none());
    assert_eq!(reg.block_by_id(2).unwrap().name, "glass");
    assert!(reg.block_by_id(3).is_none());
}
