//! `bitmaze play --term`: what the terminal front-end shows and decides.
//!
//! The terminal loop reads a line of keys at a time (`w`/`a`/`s`/`d` to move,
//! `q` to quit), steps the world for each key, left to right, and prints a
//! frame after every step. Reaching a win or a loss prints `YOU WIN` or
//! `GAME OVER` and ends the loop. [`play_line`] is that decision for one line
//! of input; reading and writing are the caller's.
use vstd::prelude::*;

use crate::text::{dec, push_dec, push_str, string_of};
use crate::vm::halt_text;
use crate::world::{rows_chars, GameState, Move, StepOutcome, StepResult, World, WorldView, step_triggered_view};

verus! {

/// Controls banner printed with every frame.
pub const CONTROLS: &'static str = "controls: w/a/s/d = move, q = quit  (press Enter after each key)";

/// What one step did, as the status line shows it: `moved`, `blocked` or
/// `idle`, then the trigger that fired, if one did.
pub open spec fn status_text(o: StepOutcome) -> Seq<char> {
    (match o.result {
        StepResult::Moved => "moved"@,
        StepResult::Blocked => "blocked"@,
        StepResult::Idle => "idle"@,
    }) + match o.trigger {
        Some(t) => "; trigger #"@ + dec(t.script_id as nat) + " at ("@ + dec(t.x as nat) + ","@
            + dec(t.y as nat) + ") ran ["@ + halt_text(t.halt) + "]"@,
        None => seq![],
    }
}

/// One frame: the map with the player, a status line with the score, and the
/// controls hint.
pub open spec fn frame_text(w: WorldView, status: Seq<char>) -> Seq<char> {
    rows_chars(w, w.level.height as int) + "player @ ("@ + dec(w.px as nat) + ","@ + dec(
        w.py as nat,
    ) + ") \u{2014} "@ + status + ", score "@ + dec(w.score as nat) + "/"@ + dec(
        w.total_items as nat,
    ) + "\n"@ + CONTROLS@ + "\n"@
}

/// Why the terminal loop stops.
#[derive(Debug, Clone, Copy, PartialEq, Eq, Structural)]
pub enum Stop {
    /// The player typed `q`.
    Quit,
    /// Every item was collected.
    Won,
    /// The player stepped on a hazard.
    Lost,
}

/// What one line of keys produced: the text to print, the moves applied,
/// and whether the loop stops.
pub struct LineResult {
    pub output: String,
    pub moves: Vec<Move>,
    pub stop: Option<Stop>,
}

/// The world, the text printed, the moves applied and the stop, after the
/// keys `cs` are played on world `w`.
pub open spec fn line_play(w: WorldView, cs: Seq<char>) -> (WorldView, Seq<char>, Seq<Move>, Option<
    Stop,
>)
    decreases cs.len(),
{
    if cs.len() == 0 {
        (w, seq![], seq![], None)
    } else if cs[0] == 'q' || cs[0] == 'Q' {
        (w, "bye.\n"@, seq![], Some(Stop::Quit))
    } else {
        match Move::of_key(cs[0]) {
            None => line_play(w, cs.drop_first()),
            Some(mv) => {
                let (w2, o) = step_triggered_view(w, mv);
                let f = frame_text(w2, status_text(o));
                if w2.state == GameState::Won {
                    (w2, f + "YOU WIN\n"@, seq![mv], Some(Stop::Won))
                } else if w2.state == GameState::Lost {
                    (w2, f + "GAME OVER\n"@, seq![mv], Some(Stop::Lost))
                } else {
                    let (w3, out, ms, st) = line_play(w2, cs.drop_first());
                    (w3, f + out, seq![mv] + ms, st)
                }
            },
        }
    }
}

/// The status text of a step outcome.
fn status(o: &StepOutcome) -> (s: String)
    ensures
        s@ == status_text(*o),
{
    let mut v: Vec<char> = Vec::new();
    match o.result {
        StepResult::Moved => push_str(&mut v, "moved"),
        StepResult::Blocked => push_str(&mut v, "blocked"),
        StepResult::Idle => push_str(&mut v, "idle"),
    }
    match o.trigger {
        Some(t) => {
            push_str(&mut v, "; trigger #");
            push_dec(&mut v, t.script_id as u64);
            push_str(&mut v, " at (");
            push_dec(&mut v, t.x as u64);
            push_str(&mut v, ",");
            push_dec(&mut v, t.y as u64);
            push_str(&mut v, ") ran [");
            let h = t.halt.message();
            push_str(&mut v, h.as_str());
            push_str(&mut v, "]");
        },
        None => {},
    }
    string_of(&v)
}

/// Render one frame: the map with the player, a status line, and the
/// controls hint.
pub fn frame(world: &World, status: &str) -> (s: String)
    requires
        world.wf(),
    ensures
        s@ == frame_text(world@, status@),
{
    let mut v: Vec<char> = Vec::new();
    let map = world.render();
    push_str(&mut v, map.as_str());
    let (px, py) = world.player();
    push_str(&mut v, "player @ (");
    push_dec(&mut v, px as u64);
    push_str(&mut v, ",");
    push_dec(&mut v, py as u64);
    push_str(&mut v, ") \u{2014} ");
    push_str(&mut v, status);
    push_str(&mut v, ", score ");
    push_dec(&mut v, world.score() as u64);
    push_str(&mut v, "/");
    push_dec(&mut v, world.total_items() as u64);
    push_str(&mut v, "\n");
    push_str(&mut v, CONTROLS);
    push_str(&mut v, "\n");
    string_of(&v)
}

/// Play one line of keys on `world`, left to right: a quit key stops at once;
/// a movement key steps the world (firing triggers) and adds a frame to the
/// output, and a win or loss adds `YOU WIN` or `GAME OVER` and stops; any
/// other character is ignored.
#[verifier::rlimit(40)]
pub fn play_line(world: &mut World, line: &str) -> (r: LineResult)
    requires
        old(world).wf(),
    ensures
        final(world).wf(),
        (final(world)@, r.output@, r.moves@, r.stop) == line_play(old(world)@, line@),
{
    let ghost total = line_play(world@, line@);
    let mut out: Vec<char> = Vec::new();
    let mut moves: Vec<Move> = Vec::new();
    let chars: Vec<char> = {
        let mut cs: Vec<char> = Vec::new();
        push_str(&mut cs, line);
        cs
    };
    assert(chars@ =~= line@);
    let mut i: usize = 0;
    assert(chars@.skip(0) =~= chars@);
    while i < chars.len()
        invariant
            world.wf(),
            total == line_play(old(world)@, line@),
            i <= chars@.len(),
            chars@ == line@,
            total == ({
                let rest = line_play(world@, chars@.skip(i as int));
                (rest.0, out@ + rest.1, moves@ + rest.2, rest.3)
            }),
        decreases chars.len() - i,
    {
        let c = chars[i];
        let ghost rest = chars@.skip(i as int);
        assert(rest[0] == c);
        assert(rest.drop_first() =~= chars@.skip(i + 1));
        if c == 'q' || c == 'Q' {
            push_str(&mut out, "bye.\n");
            assert(moves@ + Seq::<Move>::empty() =~= moves@);
            return LineResult { output: string_of(&out), moves, stop: Some(Stop::Quit) };
        }
        match Move::from_key(c) {
            None => {},
            Some(mv) => {
                let ghost before_out = out@;
                let ghost before_moves = moves@;
                let o = world.step_triggered(mv);
                let s = status(&o);
                let f = frame(world, s.as_str());
                push_str(&mut out, f.as_str());
                moves.push(mv);
                if world.state() == GameState::Won {
                    push_str(&mut out, "YOU WIN\n");
                    assert(moves@ =~= before_moves + seq![mv]);
                    return LineResult { output: string_of(&out), moves, stop: Some(Stop::Won) };
                }
                if world.state() == GameState::Lost {
                    push_str(&mut out, "GAME OVER\n");
                    assert(moves@ =~= before_moves + seq![mv]);
                    return LineResult { output: string_of(&out), moves, stop: Some(Stop::Lost) };
                }
                proof {
                    let r2 = line_play(world@, chars@.skip(i + 1));
                    assert(before_out + (f@ + r2.1) =~= out@ + r2.1);
                    assert(before_moves + (seq![mv] + r2.2) =~= moves@ + r2.2);
                }
            },
        }
        i = i + 1;
    }
    assert(chars@.skip(i as int) =~= Seq::<char>::empty());
    assert(out@ + Seq::<char>::empty() =~= out@);
    assert(moves@ + Seq::<Move>::empty() =~= moves@);
    LineResult { output: string_of(&out), moves, stop: None }
}

/// A frame's status line names the player's column, then row: right after
/// the map it reads `player @ (<px>,<py>)`, where `px` is the coordinate
/// that `Left`/`Right` change and `py` the one `Up`/`Down` change.
pub proof fn lemma_frame_names_column_then_row(w: WorldView, status: Seq<char>)
    ensures
        ({
            let f = frame_text(w, status);
            let k = rows_chars(w, w.level.height as int).len() as int;
            let tag = "player @ ("@ + dec(w.px as nat) + ","@ + dec(w.py as nat) + ")"@;
            &&& k + tag.len() <= f.len()
            &&& f.subrange(k, k + tag.len() as int) == tag
        }),
{
    reveal_strlit(") \u{2014} ");
    reveal_strlit(")");
    reveal_strlit(" \u{2014} ");
    let rows = rows_chars(w, w.level.height as int);
    let tag = "player @ ("@ + dec(w.px as nat) + ","@ + dec(w.py as nat) + ")"@;
    let rest = " \u{2014} "@ + status + ", score "@ + dec(w.score as nat) + "/"@ + dec(
        w.total_items as nat,
    ) + "\n"@ + CONTROLS@ + "\n"@;
    assert(") \u{2014} "@ =~= ")"@ + " \u{2014} "@);
    let f = frame_text(w, status);
    assert(f =~= rows + tag + rest);
    assert(f.subrange(rows.len() as int, (rows.len() + tag.len()) as int) =~= tag);
}

} // verus!
