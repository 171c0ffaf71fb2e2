//! The `.rec` replay format: packing, round-trips and rejections.
use bitmaze::replay::{packed_len, Replay, ReplayError, MAGIC, VERSION};
use bitmaze::world::Move;

#[test]
fn round_trip_preserves_moves_and_name() {
    let moves = vec![
        Move::Right,
        Move::Right,
        Move::Down,
        Move::Left,
        Move::Up,
        Move::Down, // 6 moves -> spans two packed bytes
    ];
    let r = Replay::new("levels/garden.bm", &moves);
    let bytes = r.to_bytes();
    assert_eq!(&bytes[0..2], &MAGIC);
    assert_eq!(bytes[2], VERSION);
    let back = Replay::from_bytes(&bytes).unwrap();
    assert_eq!(back, r);
    assert_eq!(back.moves, moves);
    assert_eq!(back.level_ref, "levels/garden.bm");
}

#[test]
fn none_moves_are_dropped_on_construction() {
    let r = Replay::new("x", &[Move::Up, Move::Stay, Move::Down]);
    assert_eq!(r.moves, vec![Move::Up, Move::Down]);
}

#[test]
fn two_bits_per_move_packing_is_compact() {
    // 4 moves pack into exactly 1 byte; 5 into 2.
    assert_eq!(packed_len(4), 1);
    assert_eq!(packed_len(5), 2);
    // Up,Down,Left,Right = 00 01 10 11 = 0b00011011 = 0x1B in one byte.
    let r = Replay::new("", &[Move::Up, Move::Down, Move::Left, Move::Right]);
    let bytes = r.to_bytes();
    assert_eq!(*bytes.last().unwrap(), 0x1B, "MSB-first 2-bit packing");
}

#[test]
fn empty_move_stream_round_trips() {
    let r = Replay::new("lvl", &[]);
    let bytes = r.to_bytes();
    let back = Replay::from_bytes(&bytes).unwrap();
    assert_eq!(back.moves.len(), 0);
    assert_eq!(back.level_ref, "lvl");
}

#[test]
fn bad_magic_and_version_are_rejected() {
    let mut bad = Replay::new("a", &[Move::Up]).to_bytes();
    bad.swap(0, 1); // "RB"
    assert!(matches!(Replay::from_bytes(&bad), Err(ReplayError::BadMagic(_))));

    let mut badv = Replay::new("a", &[Move::Up]).to_bytes();
    badv[2] = 9;
    assert!(matches!(Replay::from_bytes(&badv), Err(ReplayError::UnknownVersion(9))));
}

#[test]
fn truncated_and_trailing_are_rejected() {
    let full = Replay::new("abc", &[Move::Up, Move::Down]).to_bytes();
    assert!(matches!(Replay::from_bytes(&full[..full.len() - 1]), Err(ReplayError::Truncated { .. })));
    let mut long = full.clone();
    long.push(0);
    assert!(matches!(Replay::from_bytes(&long), Err(ReplayError::TrailingBytes { .. })));
    // Too short for even the header.
    assert!(matches!(Replay::from_bytes(&[0x42]), Err(ReplayError::ShortHeader(1))));
}
