//! Laws of the game world: what every step keeps, and what a run of moves
//! determines.
use vstd::prelude::*;

use crate::format::{lemma_byte_in_plane, lemma_index_in_range, LevelView};
use crate::vm::Halt;
use crate::vm_laws::{lemma_player_tile_set_wall, plane_bit};
use crate::world::{
    fire_view, fresh_machine, host_of, is_spawn, items_left, lemma_count_bounds, lemma_count_clear,
    lemma_run_frame, plate_seed, spawned, step_triggered_view, step_view, trigger_id_at,
    find_script, play_moves, row_chars, rows_chars, GameState, TriggerRun, Move, StepOutcome, StepResult, WorldView,
};

verus! {

/// Once the game is won or lost, every input is ignored: nothing moves,
/// nothing fires, and the step reports `Idle`.
pub proof fn lemma_game_over_is_final(w: WorldView, mv: Move)
    requires
        w.state != GameState::Playing,
    ensures
        step_triggered_view(w, mv) == (w, StepOutcome {
            result: StepResult::Idle,
            trigger: Option::None,
        }),
{
}

/// A blocked or idle step leaves the world exactly as it was and fires no
/// trigger: moving into a wall or off the edge is a no-op.
pub proof fn lemma_unmoved_step_changes_nothing(w: WorldView, mv: Move)
    requires
        step_view(w, mv).1 != StepResult::Moved,
    ensures
        step_triggered_view(w, mv).0 == w,
        step_triggered_view(w, mv).1.trigger is None,
{
}

/// Stepping onto a hazard loses the game.
pub proof fn lemma_hazard_loses(w: WorldView, mv: Move)
    requires
        step_view(w, mv).1 == StepResult::Moved,
        w.level.bit(2, step_view(w, mv).0.px as int, step_view(w, mv).0.py as int),
    ensures
        step_view(w, mv).0.state == GameState::Lost,
{
}

/// The game is won exactly by collecting the last item: a step that turns a
/// game with items into a win leaves no item in the level.
pub proof fn lemma_win_means_every_item_collected(w: WorldView, mv: Move)
    requires
        w.wf(),
        w.state == GameState::Playing,
        w.total_items > 0,
        step_view(w, mv).0.state == GameState::Won,
    ensures
        items_left(step_view(w, mv).0.level) == 0,
{
    let w2 = step_view(w, mv).0;
    let x = w2.px as int;
    let y = w2.py as int;
    let l = w.level;
    if l.bit(1, x, y) {
        lemma_byte_in_plane(l.width, l.height, x, y);
        lemma_index_in_range(l.width, l.height, x, y);
        lemma_count_clear(l.planes[1], l.index_of(x, y), l.tiles());
        assert(w2.level.planes[1] == crate::format::with_bit(l.planes[1], l.index_of(x, y), false));
    }
    lemma_count_bounds(w2.level.planes[1], w2.level.tiles());
}

/// A level without items never wins: it is endless.
pub proof fn lemma_no_items_never_wins(w: WorldView, mv: Move)
    requires
        w.total_items == 0,
        w.state != GameState::Won,
    ensures
        step_triggered_view(w, mv).0.state != GameState::Won,
{
}

/// What a triggered step reports. Its movement result and the player's new
/// tile are exactly those of a plain step. A trigger runs iff that step moved
/// onto a tile whose trigger byte is nonzero, names a script in the table, and
/// is either repeating (below `0x80`) or a one-shot whose tile has not fired
/// yet; the run then names that id and that tile. When nothing runs, the world
/// is just the plain step's world: the level is untouched.
pub proof fn lemma_step_triggered_reports(w: WorldView, mv: Move)
    ensures
        ({
            let (w1, o) = step_triggered_view(w, mv);
            let (ws, r) = step_view(w, mv);
            let id = trigger_id_at(ws);
            let idx = ws.level.index_of(ws.px as int, ws.py as int);
            &&& o.result == r
            &&& w1.px == ws.px && w1.py == ws.py
            &&& (o.trigger is Some <==> (r == StepResult::Moved && id != 0
                && ws.level.scripts is Some && find_script(ws.level.scripts->0, id) is Some
                && (id < 0x80 || !ws.fired[idx])))
            &&& (o.trigger matches Some(t) ==> t.script_id == id && t.x == ws.px && t.y
                == ws.py)
            &&& (o.trigger is None ==> w1 == ws)
        }),
{
}

/// A trigger script sees the player's tile, column then row. When the trigger
/// on the tile the player stands on runs `PLAYER_X; PLAYER_Y; SET_WALL; HALT`,
/// the run is reported at `(px, py)`, halts cleanly, and leaves the walls
/// plane with bit `py * width + px` set: a wall on exactly the player's tile.
pub proof fn lemma_trigger_script_sees_player_tile(w: WorldView)
    requires
        w.wf(),
        w.level.planes.len() > 0,
        trigger_id_at(w) != 0,
        trigger_id_at(w) < 0x80 || !w.fired[w.level.index_of(w.px as int, w.py as int)],
        w.level.scripts is Some,
        find_script(w.level.scripts->0, trigger_id_at(w)) matches Some(k) && w.level.scripts->0[k].bytes
            == seq![0x40u8, 0x41u8, 0x31u8, 0x01u8],
    ensures
        fire_view(w).1 == Some(
            TriggerRun { script_id: trigger_id_at(w), x: w.px, y: w.py, halt: Halt::Halt },
        ),
        plane_bit(
            fire_view(w).0.level.planes[0],
            w.py as int * w.level.width as int + w.px as int,
        ),
        fire_view(w).0.px == w.px && fire_view(w).0.py == w.py,
{
    let ss = w.level.scripts->0;
    let k = find_script(ss, trigger_id_at(w))->0;
    let c = fresh_machine(plate_seed(w.seed, w.px, w.py));
    assert(c.stack.len() == 0);
    lemma_player_tile_set_wall(c, host_of(w));
    lemma_byte_in_plane(w.level.width, w.level.height, w.px as int, w.py as int);
    assert(w.level.planes[0].len() == w.level.plane_len());
}

/// Moves go along the axes: `Right`/`Left` change the column `px` by one and
/// keep the row, `Down`/`Up` change the row `py` by one and keep the column.
/// A move in a game still playing succeeds exactly when its target tile is
/// on the map and is not a wall; otherwise the player stays put.
pub proof fn lemma_moves_follow_axes(w: WorldView, mv: Move)
    requires
        w.state == GameState::Playing,
        mv != Move::Stay,
    ensures
        ({
            let (w2, r) = step_view(w, mv);
            let (tx, ty) = match mv {
                Move::Right => (w.px + 1, w.py as int),
                Move::Left => (w.px - 1, w.py as int),
                Move::Down => (w.px as int, w.py + 1),
                Move::Up => (w.px as int, w.py - 1),
                Move::Stay => (w.px as int, w.py as int),
            };
            &&& (r == StepResult::Moved <==> (0 <= tx < w.level.width && 0 <= ty < w.level.height
                && !w.level.bit(0, tx, ty)))
            &&& (r == StepResult::Moved ==> w2.px == tx && w2.py == ty)
            &&& (r != StepResult::Moved ==> w2.px == w.px && w2.py == w.py)
        }),
{
}

/// A one-shot trigger (an id with the high bit set) fires at most once: once
/// it has fired, firing the same tile again does nothing.
pub proof fn lemma_one_shot_fires_once(w: WorldView)
    requires
        w.wf(),
        trigger_id_at(w) >= 0x80,
        fire_view(w).1 is Some,
    ensures
        fire_view(fire_view(w).0).1 is None,
{
    let ss = w.level.scripts->0;
    let id = trigger_id_at(w);
    let k = find_script(ss, id)->0;
    lemma_run_frame(fresh_machine(plate_seed(w.seed, w.px, w.py)), host_of(w), ss[k].bytes, 0, 0);
    lemma_index_in_range(w.level.width, w.level.height, w.px as int, w.py as int);
}

/// A repeating trigger (an id in `1..=127` with a script) fires on every
/// entry: it fires now, and it fires again on the world it leaves.
pub proof fn lemma_repeating_trigger_fires_again(w: WorldView)
    requires
        1 <= trigger_id_at(w) < 0x80,
        w.level.scripts is Some,
        find_script(w.level.scripts->0, trigger_id_at(w)) is Some,
    ensures
        fire_view(w).1 is Some,
        fire_view(fire_view(w).0).1 is Some,
        fire_view(fire_view(w).0).1->0.script_id == trigger_id_at(w),
{
    let ss = w.level.scripts->0;
    let id = trigger_id_at(w);
    let k = find_script(ss, id)->0;
    lemma_run_frame(fresh_machine(plate_seed(w.seed, w.px, w.py)), host_of(w), ss[k].bytes, 0, 0);
}

/// There is one spawn tile: the first floor tile in row-major order.
pub proof fn lemma_spawn_unique(l: LevelView, x1: int, y1: int, x2: int, y2: int)
    requires
        is_spawn(l, x1, y1),
        is_spawn(l, x2, y2),
    ensures
        x1 == x2 && y1 == y2,
{
    if y1 < y2 || (y1 == y2 && x1 < x2) {
        assert(l.bit(0, x1, y1));
    } else if y2 < y1 || (y2 == y1 && x2 < x1) {
        assert(l.bit(0, x2, y2));
    }
}

/// Determinism: a level and a sequence of moves fix the final world. Two
/// runs of the same moves on worlds built from the same level end in the same
/// state: position, score, game state, and every wall a trigger changed.
pub proof fn lemma_replay_reproduces(l: LevelView, moves: Seq<Move>, x1: int, y1: int, x2: int, y2: int)
    requires
        is_spawn(l, x1, y1),
        is_spawn(l, x2, y2),
    ensures
        play_moves(spawned(l, x1, y1), moves) == play_moves(spawned(l, x2, y2), moves),
{
    lemma_spawn_unique(l, x1, y1, x2, y2);
}

proof fn lemma_row_chars(w: WorldView, y: int, n: int)
    requires
        n >= 0,
    ensures
        row_chars(w, y, n).len() == n,
        forall|x: int| 0 <= x < n ==> #[trigger] row_chars(w, y, n)[x] == (if x == w.px && y
            == w.py {
            '@'
        } else if w.level.bit(0, x, y) {
            '#'
        } else if w.level.bit(2, x, y) {
            '^'
        } else if w.level.bit(1, x, y) {
            '*'
        } else {
            '.'
        }),
    decreases n,
{
    if n > 0 {
        lemma_row_chars(w, y, n - 1);
    }
}

proof fn lemma_rows_chars(w: WorldView, m: int)
    requires
        m >= 0,
    ensures
        rows_chars(w, m).len() == m * (w.level.width + 1),
        forall|y: int, x: int|
            0 <= y < m && 0 <= x <= w.level.width ==> rows_chars(w, m)[y * (w.level.width + 1) + x]
                == #[trigger] rows_chars(w, y + 1)[y * (w.level.width + 1) + x],
        forall|x: int|
            0 <= x <= w.level.width && m > 0 ==> #[trigger] rows_chars(w, m)[(m - 1) * (
            w.level.width + 1) + x] == (row_chars(w, m - 1, w.level.width as int) + seq!['\n'])[x],
    decreases m,
{
    let ww = w.level.width + 1;
    if m > 0 {
        lemma_rows_chars(w, m - 1);
        lemma_row_chars(w, m - 1, w.level.width as int);
        assert(m * ww == (m - 1) * ww + ww) by (nonlinear_arith);
        assert forall|y: int, x: int| 0 <= y < m && 0 <= x <= w.level.width implies rows_chars(w, m)[y
            * ww + x] == #[trigger] rows_chars(w, y + 1)[y * ww + x] by {
            if y < m - 1 {
                assert(y * ww + x < (m - 1) * ww) by (nonlinear_arith)
                    requires
                        0 <= y < m - 1,
                        0 <= x < ww,
                ;
                assert(rows_chars(w, m)[y * ww + x] == rows_chars(w, m - 1)[y * ww + x]);
            }
        }
    }
}

/// The terminal map puts tile `(x, y)` at column `x` of line `y`: the text
/// is `height` lines of `width + 1` characters, and character
/// `y * (width + 1) + x` is `@` exactly on the player's tile `(px, py)`,
/// otherwise `#` for a wall, `^` for a hazard, `*` for an item and `.` for
/// floor, each read from tile `(x, y)` of its plane; each line ends in `\n`.
pub proof fn lemma_map_layout(w: WorldView, x: int, y: int)
    requires
        0 <= x < w.level.width,
        0 <= y < w.level.height,
    ensures
        ({
            let t = rows_chars(w, w.level.height as int);
            let ww = w.level.width + 1;
            &&& t.len() == w.level.height * ww
            &&& t[y * ww + w.level.width] == '\n'
            &&& t[y * ww + x] == (if x == w.px && y == w.py {
                '@'
            } else if w.level.bit(0, x, y) {
                '#'
            } else if w.level.bit(2, x, y) {
                '^'
            } else if w.level.bit(1, x, y) {
                '*'
            } else {
                '.'
            })
        }),
{
    let ww = w.level.width + 1;
    lemma_rows_chars(w, w.level.height as int);
    lemma_rows_chars(w, y + 1);
    lemma_row_chars(w, y, w.level.width as int);
    assert(rows_chars(w, w.level.height as int)[y * ww + x] == rows_chars(w, y + 1)[y * ww + x]);
    assert(rows_chars(w, w.level.height as int)[y * ww + w.level.width] == rows_chars(w, y + 1)[y
        * ww + w.level.width]);
}

} // verus!
