//! The keyboard of the graphical front end: which key presses move the
//! player. The window itself (opening it, reading key events, blitting frames)
//! lives outside the library; it hands each pressed key over as a [`Key`].
use crate::world::Move;
use vstd::prelude::*;

verus! {

/// Pixel size of one tile in the graphical window.
pub const TILE_PX: usize = 24;

/// The keys the window front end tells apart. Every key it does not read
/// arrives as `Other`.
#[derive(Debug, Clone, Copy, PartialEq, Eq, Structural)]
pub enum Key {
    W,
    A,
    S,
    D,
    Up,
    Down,
    Left,
    Right,
    Q,
    Escape,
    Other,
}

/// Map a key to a [`Move`]. Both WASD and the arrow keys move; every other
/// key (the quit keys `Q` and `Escape` included, which the window loop
/// handles itself) maps to `None`.
pub fn key_to_move(key: Key) -> (m: Option<Move>)
    ensures
        m == Some(Move::Up) <==> (key == Key::W || key == Key::Up),
        m == Some(Move::Down) <==> (key == Key::S || key == Key::Down),
        m == Some(Move::Left) <==> (key == Key::A || key == Key::Left),
        m == Some(Move::Right) <==> (key == Key::D || key == Key::Right),
        m != Some(Move::Stay),
{
    match key {
        Key::W | Key::Up => Some(Move::Up),
        Key::S | Key::Down => Some(Move::Down),
        Key::A | Key::Left => Some(Move::Left),
        Key::D | Key::Right => Some(Move::Right),
        _ => None,
    }
}

} // verus!
