//! The sample levels: valid, reparseable, with their assembled scripts, and
//! playable as designed.

use bitmaze::world::{HAZARDS_PLANE, ITEMS_PLANE, WALLS_PLANE};
use bitmaze::samples::{all, circuit, garden, trial};
use bitmaze::world::Move::{Down, Left, Right, Up};
use bitmaze::{samples, Level, World};
use std::collections::VecDeque;

#[test]
fn garden_playthrough_collects_items_and_fires_the_gate() {
    let mut world = World::new(samples::garden()).unwrap();
    assert_eq!((world.px, world.py), (1, 1));
    assert!(world.level.get_bit(0, 5, 3), "door starts closed");

    // Collect the first item and step on the plate.
    world.step_triggered(Right); // (2,1)
    world.step_triggered(Right); // (3,1) item
    assert_eq!(world.score, 1);
    world.step_triggered(Down); // (3,2)
    let plate = world.step_triggered(Left); // (2,2) plate
    assert!(plate.trigger.is_some(), "the plate fires the door script");
    assert!(!world.level.get_bit(0, 5, 3), "door is now open");
}

#[test]
fn vault_plate_uses_ram_and_opens_the_vault() {
    let mut world = World::new(samples::vault()).unwrap();
    assert!(world.level.get_bit(0, 5, 3), "vault starts closed");
    world.step_triggered(Right); // (2,1)... actually (2,1) then down to plate
    world.step_triggered(Down); // (2,2) plate at (2,2)
    // The plate at (2,2): we reached it via (1,1)->(2,1)->(2,2).
    assert!(!world.level.get_bit(0, 5, 3), "vault opened via LOAD/STORE + CLR_WALL script");
}

#[test]
fn samples_are_valid_and_reparse() {
    for (name, level) in all() {
        let bytes = level.to_bytes();
        let back = Level::from_bytes(&bytes).expect(name);
        assert_eq!(back, level, "{name} round-trips");
        // At least walls + items planes (trial adds a third HAZARDS plane),
        // with triggers and scripts present.
        assert!(level.planes.len() >= 2, "{name} has walls + items planes");
        assert!(level.triggers.is_some(), "{name} has a trigger plane");
        assert!(level.scripts.is_some(), "{name} has a script table");
    }
}

#[test]
fn trial_has_a_hazards_plane_and_a_one_shot_trigger() {
    let level = trial();
    assert_eq!(level.planes.len(), 3, "trial has walls + items + hazards planes");
    // The plate at (3,1) is a one-shot trigger (high-bit id 0x80).
    let triggers = level.triggers.as_ref().unwrap();
    assert_eq!(triggers[8 + 3], 0x80, "one-shot plate id has the high bit set");
    // The door script is the assembled clr_wall(5,3).
    assert_eq!(level.scripts.unwrap()[0].bytes, vec![0x10, 0x05, 0x10, 0x03, 0x32, 0x01]);
}

#[test]
fn garden_gate_script_is_the_assembled_bytecode() {
    let level = garden();
    let scripts = level.scripts.as_ref().unwrap();
    assert_eq!(scripts[0].bytes, vec![0x10, 0x05, 0x10, 0x03, 0x32, 0x01]);
}

#[test]
fn circuit_has_expected_scale_and_gate_programs() {
    let mut level = circuit();
    assert_eq!((level.width, level.height), (24, 16));
    assert_eq!(level.planes.len(), 3);
    assert_eq!(level.planes[ITEMS_PLANE].iter().map(|b| b.count_ones()).sum::<u32>(), 12);
    assert_eq!(level.planes[HAZARDS_PLANE].iter().map(|b| b.count_ones()).sum::<u32>(), 9);
    let triggers = level.triggers.as_ref().unwrap();
    assert_eq!(triggers[2 * 24 + 5], 0x80);
    assert_eq!(triggers[13 * 24 + 12], 0x81);
    let scripts = level.scripts.as_ref().unwrap();
    assert_eq!(scripts[0].bytes, vec![0x10, 8, 0x10, 4, 0x32, 0x01]);
    assert_eq!(scripts[1].bytes, vec![0x10, 16, 0x10, 11, 0x32, 0x01]);

    // Treat hazards as blocked and prove the intended progression has safe
    // routes: plate A, then plate B after door A, then every collectible.
    let reachable = |level: &Level, start: (u8, u8)| {
        let mut seen = vec![false; level.tile_count()];
        let mut queue = VecDeque::from([start]);
        while let Some((x, y)) = queue.pop_front() {
            let idx = y as usize * level.width as usize + x as usize;
            if seen[idx]
                || level.get_bit(WALLS_PLANE, x, y)
                || level.get_bit(HAZARDS_PLANE, x, y)
            {
                continue;
            }
            seen[idx] = true;
            for (nx, ny) in [
                (x.wrapping_sub(1), y),
                (x.saturating_add(1), y),
                (x, y.wrapping_sub(1)),
                (x, y.saturating_add(1)),
            ] {
                if nx < level.width && ny < level.height {
                    queue.push_back((nx, ny));
                }
            }
        }
        seen
    };
    let can_reach = |seen: &[bool], level: &Level, x: u8, y: u8| {
        seen[y as usize * level.width as usize + x as usize]
    };
    let first = reachable(&level, (1, 1));
    assert!(can_reach(&first, &level, 5, 2), "plate A has a safe route");
    level.set_bit(WALLS_PLANE, 8, 4, false);
    let second = reachable(&level, (1, 1));
    assert!(can_reach(&second, &level, 12, 13), "plate B is reachable after door A");
    level.set_bit(WALLS_PLANE, 16, 11, false);
    let final_map = reachable(&level, (1, 1));
    for y in 0..level.height {
        for x in 0..level.width {
            if level.get_bit(ITEMS_PLANE, x, y) {
                assert!(can_reach(&final_map, &level, x, y), "item ({x},{y}) has a safe route");
            }
        }
    }
}
