//! Laws of the BitVM's world opcodes: which tile each one reads or writes,
//! stated over the raw walls-plane bits rather than the host model.
use vstd::prelude::*;

use crate::vm::{bit_u16, model_hazard, model_item, model_set_wall, model_wall, run_from, step, with_stack, Halt, HostModel, Machine, Next};

verus! {

/// Bit `idx` (row-major tile index) of a bitplane, MSB-first in its byte.
pub open spec fn plane_bit(plane: Seq<u8>, idx: int) -> bool {
    (plane[idx / 8] >> ((7 - idx % 8) as u8)) & 1u8 == 1u8
}

/// Tile `(x, y)` is on the map of `h` and its byte in plane `p` exists.
pub open spec fn tile_present(h: HostModel, p: int, x: int, y: int) -> bool {
    &&& 0 <= x < h.level.width
    &&& 0 <= y < h.level.height
    &&& 0 <= p < h.level.planes.len()
    &&& (y * h.level.width + x) / 8 < h.level.planes[p].len()
}

/// Tile `(x, y)` is on the map of `h` and its walls-plane byte exists.
pub open spec fn wall_tile_present(h: HostModel, x: int, y: int) -> bool {
    tile_present(h, 0, x, y)
}

/// The tile-reading opcodes read column, then row: `GET_WALL` (0x30) the
/// walls plane, `GET_ITEM` (0x42) the items plane, `GET_HAZARD` (0x44) the
/// hazards plane. After `PUSH16 x; PUSH16 y; <op>; HALT` from an empty stack,
/// the stack holds exactly one value: 1 when bit `y * width + x` of that plane
/// (tile `(x, y)`) is set, 0 when it is clear or the tile is off the map. The
/// host is untouched.
pub proof fn lemma_tile_reads_column_then_row(c: Machine, h: HostModel, op: u8, p: int, x: u16, y: u16)
    requires
        c.stack.len() == 0,
        (op == 0x30 && p == 0) || (op == 0x42 && p == 1) || (op == 0x44 && p == 2),
    ensures
        ({
            let script = seq![
                0x11u8,
                (x % 256) as u8,
                (x / 256) as u8,
                0x11u8,
                (y % 256) as u8,
                (y / 256) as u8,
                op,
                0x01u8,
            ];
            let idx = y as int * h.level.width as int + x as int;
            let set = tile_present(h, p, x as int, y as int) && plane_bit(h.level.planes[p], idx);
            let r = run_from(c, h, script, 0, 0);
            &&& r.0 == Halt::Halt
            &&& r.1.stack == seq![if set { 1u16 } else { 0u16 }]
            &&& r.2 == h
        }),
{
    let script = seq![
        0x11u8,
        (x % 256) as u8,
        (x / 256) as u8,
        0x11u8,
        (y % 256) as u8,
        (y / 256) as u8,
        op,
        0x01u8,
    ];
    let got = if op == 0x30 {
        model_wall(h, x, y)
    } else if op == 0x42 {
        model_item(h, x, y)
    } else {
        model_hazard(h, x, y)
    };
    assert(((script[1] as int + 256 * script[2] as int) as u16) == x);
    assert(((script[4] as int + 256 * script[5] as int) as u16) == y);
    let c1 = with_stack(c, seq![x]);
    let c2 = with_stack(c, seq![x, y]);
    let c3 = with_stack(c, seq![bit_u16(got)]);
    assert(c.stack.push(x) =~= seq![x]);
    assert(step(c, h, script, 0) == Next::Go(c1, h, 3));
    assert(c1.stack.push(y) =~= seq![x, y]);
    assert(step(c1, h, script, 3) == Next::Go(c2, h, 6));
    assert(c2.stack.subrange(0, 0).push(bit_u16(got)) =~= seq![bit_u16(got)]);
    assert(step(c2, h, script, 6) == Next::Go(c3, h, 7));
    assert(step(c3, h, script, 7) == Next::Stop(Halt::Halt, c3, h));
    assert(run_from(c3, h, script, 7, 3) == (Halt::Halt, c3, h, 4int));
    assert(run_from(c2, h, script, 6, 2) == run_from(c3, h, script, 7, 3));
    assert(run_from(c1, h, script, 3, 1) == run_from(c2, h, script, 6, 2));
    assert(run_from(c, h, script, 0, 0) == run_from(c1, h, script, 3, 1));
}

/// The wall-writing opcodes take column, then row: after `PUSH16 x; PUSH16 y;
/// SET_WALL; HALT` (or `CLR_WALL`, 0x32) from an empty stack, bit
/// `y * width + x` of the walls plane (tile `(x, y)`) is set (or cleared)
/// wherever that tile is on the map, and the stack is empty.
pub proof fn lemma_wall_writes_column_then_row(c: Machine, h: HostModel, op: u8, x: u16, y: u16)
    requires
        c.stack.len() == 0,
        op == 0x31 || op == 0x32,
    ensures
        ({
            let script = seq![
                0x11u8,
                (x % 256) as u8,
                (x / 256) as u8,
                0x11u8,
                (y % 256) as u8,
                (y / 256) as u8,
                op,
                0x01u8,
            ];
            let idx = y as int * h.level.width as int + x as int;
            let r = run_from(c, h, script, 0, 0);
            &&& r.0 == Halt::Halt
            &&& r.1.stack.len() == 0
            &&& r.2 == model_set_wall(h, x, y, op == 0x31)
            &&& wall_tile_present(h, x as int, y as int) ==> plane_bit(r.2.level.planes[0], idx)
                == (op == 0x31)
        }),
{
    let script = seq![
        0x11u8,
        (x % 256) as u8,
        (x / 256) as u8,
        0x11u8,
        (y % 256) as u8,
        (y / 256) as u8,
        op,
        0x01u8,
    ];
    assert(((script[1] as int + 256 * script[2] as int) as u16) == x);
    assert(((script[4] as int + 256 * script[5] as int) as u16) == y);
    let c1 = with_stack(c, seq![x]);
    let c2 = with_stack(c, seq![x, y]);
    let c3 = with_stack(c, seq![]);
    let h3 = model_set_wall(h, x, y, op == 0x31);
    assert(c.stack.push(x) =~= seq![x]);
    assert(step(c, h, script, 0) == Next::Go(c1, h, 3));
    assert(c1.stack.push(y) =~= seq![x, y]);
    assert(step(c1, h, script, 3) == Next::Go(c2, h, 6));
    assert(c2.stack.subrange(0, 0) =~= Seq::<u16>::empty());
    assert(step(c2, h, script, 6) == Next::Go(c3, h3, 7));
    assert(step(c3, h3, script, 7) == Next::Stop(Halt::Halt, c3, h3));
    assert(run_from(c3, h3, script, 7, 3) == (Halt::Halt, c3, h3, 4int));
    assert(run_from(c2, h, script, 6, 2) == run_from(c3, h3, script, 7, 3));
    assert(run_from(c1, h, script, 3, 1) == run_from(c2, h, script, 6, 2));
    assert(run_from(c, h, script, 0, 0) == run_from(c1, h, script, 3, 1));
    if wall_tile_present(h, x as int, y as int) {
        let idx = y as int * h.level.width as int + x as int;
        assert(idx >= 0) by (nonlinear_arith)
            requires
                idx == y as int * h.level.width as int + x as int,
        ;
        crate::world::lemma_with_bit_bits(h.level.planes[0], idx, idx, op == 0x31);
    }
}

/// `PLAYER_X; PLAYER_Y; SET_WALL; HALT` from an empty stack walls in the
/// player's own tile: column `player.0`, row `player.1`. The walls plane
/// then has bit `player.1 * width + player.0` set (where that tile is on
/// the map), and the run halts cleanly with an empty stack.
pub proof fn lemma_player_tile_set_wall(c: Machine, h: HostModel)
    requires
        c.stack.len() == 0,
    ensures
        ({
            let script = seq![0x40u8, 0x41u8, 0x31u8, 0x01u8];
            let r = run_from(c, h, script, 0, 0);
            let (px, py) = (h.player.0 as int, h.player.1 as int);
            &&& r.0 == Halt::Halt
            &&& r.1.stack.len() == 0
            &&& r.2 == model_set_wall(h, h.player.0, h.player.1, true)
            &&& wall_tile_present(h, px, py) ==> plane_bit(
                r.2.level.planes[0],
                py * h.level.width + px,
            )
        }),
{
    let script = seq![0x40u8, 0x41u8, 0x31u8, 0x01u8];
    let (x, y) = h.player;
    let c1 = with_stack(c, seq![x]);
    let c2 = with_stack(c, seq![x, y]);
    let c3 = with_stack(c, seq![]);
    let h3 = model_set_wall(h, x, y, true);
    assert(c.stack.push(x) =~= seq![x]);
    assert(step(c, h, script, 0) == Next::Go(c1, h, 1));
    assert(c1.stack.push(y) =~= seq![x, y]);
    assert(step(c1, h, script, 1) == Next::Go(c2, h, 2));
    assert(c2.stack.subrange(0, 0) =~= Seq::<u16>::empty());
    assert(step(c2, h, script, 2) == Next::Go(c3, h3, 3));
    assert(step(c3, h3, script, 3) == Next::Stop(Halt::Halt, c3, h3));
    assert(run_from(c3, h3, script, 3, 3) == (Halt::Halt, c3, h3, 4int));
    assert(run_from(c2, h, script, 2, 2) == run_from(c3, h3, script, 3, 3));
    assert(run_from(c1, h, script, 1, 1) == run_from(c2, h, script, 2, 2));
    assert(run_from(c, h, script, 0, 0) == run_from(c1, h, script, 1, 1));
    if wall_tile_present(h, x as int, y as int) {
        let idx = y as int * h.level.width as int + x as int;
        assert(idx >= 0) by (nonlinear_arith)
            requires
                idx == y as int * h.level.width as int + x as int,
        ;
        crate::world::lemma_with_bit_bits(h.level.planes[0], idx, idx, true);
    }
}

} // verus!
