use bitmaze::keys::{key_to_move, Key};
use bitmaze::world::Move;

#[test]
fn wasd_and_arrows_both_map_to_moves() {
    assert_eq!(key_to_move(Key::W), Some(Move::Up));
    assert_eq!(key_to_move(Key::Up), Some(Move::Up));
    assert_eq!(key_to_move(Key::S), Some(Move::Down));
    assert_eq!(key_to_move(Key::Down), Some(Move::Down));
    assert_eq!(key_to_move(Key::A), Some(Move::Left));
    assert_eq!(key_to_move(Key::Left), Some(Move::Left));
    assert_eq!(key_to_move(Key::D), Some(Move::Right));
    assert_eq!(key_to_move(Key::Right), Some(Move::Right));
}

#[test]
fn non_movement_keys_map_to_none() {
    assert_eq!(key_to_move(Key::Q), None);
    assert_eq!(key_to_move(Key::Escape), None);
    // Space is a key the window loop does not read.
    assert_eq!(key_to_move(Key::Other), None);
}

