//! The terminal front-end's decisions: frames, quitting, ignored keys, and
//! the win and loss that end a session.

use bitmaze::format::{plane_len, Level};
use bitmaze::play::{frame, play_line, Stop, CONTROLS};
use bitmaze::world::{GameState, Move, World};

/// An 8x8 walls-only maze, as `xxd` shows it.
const FIRST_BM: [u8; 16] = [
    0x42, 0x4d, 0x01, 0x00, 0x08, 0x08, 0x01, 0x00, //
    0xff, 0x81, 0xbd, 0xa5, 0xaf, 0x81, 0xfb, 0xff,
];

fn first_world() -> World {
    World::new(Level::from_bytes(&FIRST_BM).unwrap()).unwrap()
}

/// A 2x1 floor with an item or a hazard on the right tile.
fn two_tiles(plane: usize) -> World {
    let mut level = Level::blank(2, 1);
    level.planes.push(vec![0u8; plane_len(2, 1)]);
    level.planes.push(vec![0u8; plane_len(2, 1)]);
    level.set_bit(plane, 1, 0, true);
    World::new(level).unwrap()
}

#[test]
fn a_frame_is_the_map_a_status_line_and_the_controls() {
    let world = first_world();
    let expected = format!(
        "{}player @ (1,1) \u{2014} start, score 0/0\n{}\n",
        world.render(),
        CONTROLS
    );
    assert_eq!(frame(&world, "start"), expected);
}

#[test]
fn keys_step_the_world_and_q_quits() {
    let mut world = first_world();
    let r = play_line(&mut world, "d x\n");
    assert_eq!(r.moves, vec![Move::Right]);
    assert_eq!(r.stop, None);
    assert_eq!((world.px, world.py), (2, 1));
    assert_eq!(r.output, frame(&world, "moved"));

    let r = play_line(&mut world, "sQd");
    assert_eq!(r.moves, vec![Move::Down]);
    assert_eq!(r.stop, Some(Stop::Quit));
    assert_eq!(r.output, format!("{}bye.\n", frame(&world, "blocked")));
    assert_eq!((world.px, world.py), (2, 1), "keys after q are not played");
}

#[test]
fn collecting_the_last_item_prints_you_win() {
    let mut world = two_tiles(1);
    let r = play_line(&mut world, "dd");
    assert_eq!(world.state, GameState::Won);
    assert_eq!(r.stop, Some(Stop::Won));
    assert_eq!(r.moves, vec![Move::Right]);
    assert_eq!(r.output, format!("{}YOU WIN\n", frame(&world, "moved")));
    assert!(r.output.contains("score 1/1"));
}

#[test]
fn stepping_on_a_hazard_prints_game_over() {
    let mut world = two_tiles(2);
    let r = play_line(&mut world, "D");
    assert_eq!(world.state, GameState::Lost);
    assert_eq!(r.stop, Some(Stop::Lost));
    assert_eq!(r.output, format!("{}GAME OVER\n", frame(&world, "moved")));
}

#[test]
fn a_fired_trigger_shows_in_the_status_line() {
    let mut level = Level::blank(3, 1);
    level.triggers = Some(vec![0, 1, 0]);
    level.scripts = Some(vec![bitmaze::format::Script { id: 1, bytes: vec![0x01] }]);
    let mut world = World::new(level).unwrap();
    let r = play_line(&mut world, "d");
    assert_eq!(r.output, frame(&world, "moved; trigger #1 at (1,0) ran [HALT]"));
}

#[test]
fn an_empty_line_does_nothing() {
    let mut world = first_world();
    let r = play_line(&mut world, "");
    assert_eq!((r.output.as_str(), r.moves.len(), r.stop), ("", 0, None));
}
