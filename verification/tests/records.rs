//! `.rec` replays beyond the basics: names, error texts, lossy level
//! references and the move-count field.

use bitmaze::replay::{packed_len, Replay, ReplayError};
use bitmaze::world::Move;
use bitmaze::World;

#[test]
fn replay_error_messages() {
    assert_eq!(
        ReplayError::ShortHeader(1).message(),
        "replay too short: 1 bytes, need at least 4 for the header"
    );
    assert_eq!(
        ReplayError::BadMagic([0x52, 0x42]).message(),
        "bad replay magic 0x52 0x42: looks like byte-swapped \"RB\" \u{2014} expected \"BR\" (0x42 0x52)"
    );
    assert_eq!(
        ReplayError::BadMagic([0x00, 0x00]).message(),
        "bad replay magic 0x00 0x00: not a bit-maze replay (expected \"BR\" 0x42 0x52)"
    );
    assert_eq!(
        ReplayError::UnknownVersion(9).message(),
        "unknown replay version 9: this build only understands version 1"
    );
    assert_eq!(
        ReplayError::TrailingBytes { extra: 1 }.message(),
        "1 trailing byte(s) after a complete replay"
    );
}

#[test]
fn each_truncation_names_its_field() {
    let full = Replay::new("abc", &[Move::Up, Move::Down]).to_bytes();
    assert_eq!(full.len(), 4 + 3 + 2 + 1);
    let cases: [(usize, usize, usize, &str); 3] = [
        (9, 1, 0, "the packed moves"),
        (8, 2, 1, "the move count"),
        (6, 3, 2, "the level reference"),
    ];
    for (len, needed, had, what) in cases {
        match Replay::from_bytes(&full[..len]) {
            Err(e @ ReplayError::Truncated { .. }) => {
                let text = format!("truncated replay: needed {needed} bytes for {what}, only {had} remain");
                assert_eq!(e.message(), text);
            }
            other => panic!("expected Truncated at {len}, got {other:?}"),
        }
    }
}

#[test]
fn invalid_utf8_names_read_back_lossily() {
    let bytes = [0x42, 0x52, 0x01, 0x02, 0xFF, b'a', 0x00, 0x00];
    let r = Replay::from_bytes(&bytes).unwrap();
    assert_eq!(r.level_ref, "\u{FFFD}a");
    assert!(r.moves.is_empty());
}

#[test]
fn long_names_are_cut_a_whole_character_at_a_time() {
    let r = Replay::new(&"a".repeat(300), &[]);
    assert_eq!(r.level_ref.len(), 255);
    // 128 two-byte characters are 256 bytes: one must go.
    let r = Replay::new(&"\u{e9}".repeat(128), &[]);
    assert_eq!(r.level_ref, "\u{e9}".repeat(127));
    assert_eq!(r.to_bytes()[3], 254);
    let back = Replay::from_bytes(&r.to_bytes()).unwrap();
    assert_eq!(back, r);
}

#[test]
fn the_move_count_is_little_endian_and_packing_pads_with_zero_bits() {
    let moves = vec![Move::Right; 257];
    let r = Replay::new("", &moves);
    let bytes = r.to_bytes();
    assert_eq!(bytes[4..6], [0x01, 0x01]); // 257 = 0x0101
    assert_eq!(bytes.len(), 4 + 2 + packed_len(257));
    assert_eq!(packed_len(257), 65);
    assert_eq!(*bytes.last().unwrap(), 0b1100_0000);
    assert_eq!(Replay::from_bytes(&bytes).unwrap().moves, moves);
    assert_eq!(packed_len(0), 0);
}

#[test]
fn stay_inputs_never_reach_the_file() {
    let r = Replay::new("x", &[Move::Stay, Move::Left, Move::Stay]);
    assert_eq!(r.moves, vec![Move::Left]);
    assert_eq!(r.to_bytes(), vec![0x42, 0x52, 0x01, 0x01, b'x', 0x01, 0x00, 0b1000_0000]);
}

#[test]
fn apply_moves_matches_stepping_one_move_at_a_time() {
    let moves = [
        Move::Right, Move::Right, Move::Down, Move::Left, Move::Down, Move::Down,
        Move::Up, Move::Right, Move::Right, Move::Right, Move::Right, Move::Right,
    ];
    let mut stepped = World::new(bitmaze::samples::garden()).unwrap();
    for &mv in &moves {
        stepped.step_triggered(mv);
    }
    let mut applied = World::new(bitmaze::samples::garden()).unwrap();
    applied.apply_moves(&moves);
    assert_eq!((applied.px, applied.py), (stepped.px, stepped.py));
    assert_eq!((applied.px, applied.py), (7, 3));
    assert_eq!(applied.score, stepped.score);
    assert_eq!(applied.state, stepped.state);
    assert_eq!(applied.level.planes, stepped.level.planes);
    assert!(!applied.level.get_bit(0, 5, 3), "the plate opened the door");
}
