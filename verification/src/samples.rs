//! Sample-level builders: the "add a plane, add a mechanic" showcase.
//!
//! Each builder constructs a full `.bm` [`Level`] in memory: a walls plane
//! (plane 0), an items plane (plane 1), sometimes a hazards plane (plane 2), a
//! byte-per-tile trigger plane, and a script table whose bytecode the
//! assembler produces from the script source embedded here.
use vstd::prelude::*;

use crate::assembler::{assemble, assembled};
use crate::bytes::zeros;
use crate::format::{plane_len, tiles, Level, LevelView, Script, ScriptView};
use crate::paint::{
    among,
    border,
    lemma_holds_ext,
    lemma_zero_plane_holds,
    on_border,
    paint,
    paint_column,
    paint_points,
    paint_run,
    plane_holds,
    zero_plane,
};
use crate::world::{HAZARDS_PLANE, ITEMS_PLANE, WALLS_PLANE};

verus! {

/// The garden door script: clear the door at (5,3).
pub const GARDEN_SRC: &'static str =
    "; garden door: the plate opens the divider at (5,3)\non_enter:\n    push 5\n    push 3\n    clr_wall\n    halt\n";

/// The vault script: bump the visit counter in scratch RAM, then open the
/// vault door at (5,3).
pub const VAULT_SRC: &'static str =
    "; vault: count visits in ram[0], then open the door at (5,3)\non_enter:\n    push 0\n    load\n    push 1\n    add\n    push 0\n    store\n    push 5\n    push 3\n    clr_wall\n    halt\n";

/// The trial door script: clear the door at (5,3).
pub const TRIAL_SRC: &'static str =
    "; trial door: the one-shot plate opens the door at (5,3)\non_enter:\n    push 5\n    push 3\n    clr_wall\n    halt\n";

/// The circuit's first door script: clear the door at (8,4).
pub const CIRCUIT_A_SRC: &'static str =
    "; circuit plate A: open the first divider door at (8,4)\non_enter:\n    push 8\n    push 4\n    clr_wall\n    halt\n";

/// The circuit's second door script: clear the door at (16,11).
pub const CIRCUIT_B_SRC: &'static str =
    "; circuit plate B: open the second divider door at (16,11)\non_enter:\n    push 16\n    push 11\n    clr_wall\n    halt\n";

/// The bytecode of a script source, or nothing if it does not assemble.
pub open spec fn code_of(src: Seq<char>) -> Seq<u8> {
    match assembled(src) {
        Ok(b) => b,
        Err(_) => seq![],
    }
}

/// Assemble an embedded script source.
fn script_code(src: &str) -> (b: Vec<u8>)
    requires
        src@.len() < 0x10000,
    ensures
        b@ == code_of(src@),
        b@.len() <= src@.len(),
{
    match assemble(src) {
        Ok(b) => b,
        Err(_) => Vec::new(),
    }
}

/// A fresh trigger plane of `n` tiles, all `00`.
pub open spec fn no_triggers(n: int) -> Seq<u8> {
    Seq::new(n as nat, |i: int| 0u8)
}

/// Start an items-carrying level: a blank walls plane plus an empty items
/// plane and a zeroed trigger plane, ready for the caller to paint.
fn base(width: u8, height: u8) -> (r: (Level, Vec<u8>))
    ensures
        r.0@.width == width,
        r.0@.height == height,
        r.0@.planes == seq![zero_plane(width, height), zero_plane(width, height)],
        r.0@.triggers is None,
        r.0@.scripts is None,
        r.1@ == no_triggers(width * height),
{
    let mut level = Level::blank(width, height);
    let ghost before = level.planes@;
    assert(before.map_values(|p: Vec<u8>| p@) =~= seq![zero_plane(width, height)]);
    level.planes.push(zeros(plane_len(width, height)));
    assert(level.planes@.map_values(|p: Vec<u8>| p@) =~= before.map_values(|p: Vec<u8>| p@).push(
        zero_plane(width, height),
    ));
    assert(level@.planes =~= seq![zero_plane(width, height), zero_plane(width, height)]);
    let triggers = zeros(tiles(width, height));
    (level, triggers)
}

// ---------------------------------------------------------------------------
// garden
// ---------------------------------------------------------------------------

/// The garden's walls: the border and a divider at `x = 5`, rows 1 to 5.
pub open spec fn garden_wall(a: int, b: int) -> bool {
    on_border(10, 7, a, b) || (a == 5 && 1 <= b <= 5)
}

/// The garden's items: two on the near side, three behind the door.
pub open spec fn garden_items() -> Seq<(u8, u8)> {
    seq![(3u8, 1u8), (2, 4), (7, 1), (7, 3), (7, 5)]
}

/// The garden: a 10×7 room split by a vertical door; a plate at (2,2), id 1,
/// runs the door script.
pub open spec fn is_garden(l: LevelView) -> bool {
    &&& l.width == 10
    &&& l.height == 7
    &&& l.planes.len() == 2
    &&& plane_holds(l.planes[0], 10, 7, |a: int, b: int| garden_wall(a, b))
    &&& plane_holds(l.planes[1], 10, 7, |a: int, b: int| among(garden_items(), a, b))
    &&& l.triggers == Some(no_triggers(70).update(22, 1u8))
    &&& l.scripts == Some(seq![ScriptView { id: 1, bytes: code_of(GARDEN_SRC@) }])
}

/// The **garden**: a 10×7 room split by a vertical door. A pressure plate at
/// (2,2) runs the door script to clear the door at (5,3), joining the halves
/// so the items on the far side become reachable. Five items in all.
pub fn garden() -> (l: Level)
    ensures
        is_garden(l@),
        l@.wf(),
{
    let (mut level, mut triggers) = base(10, 7);
    proof {
        lemma_zero_plane_holds(10, 7);
    }
    border(&mut level, Ghost(|a: int, b: int| false));
    paint_column(&mut level, WALLS_PLANE, 5, 1, 5, Ghost(|a: int, b: int| false || on_border(10, 7, a, b)));
    proof {
        lemma_holds_ext(
            level@.planes[0],
            10,
            7,
            |a: int, b: int| (false || on_border(10, 7, a, b)) || (a == 5 && 1 <= b <= 5),
            |a: int, b: int| garden_wall(a, b),
        );
    }
    let pts: Vec<(u8, u8)> = vec![(3u8, 1u8), (2, 4), (7, 1), (7, 3), (7, 5)];
    assert(pts@ == garden_items());
    paint_points(&mut level, ITEMS_PLANE, pts.as_slice(), Ghost(|a: int, b: int| false));
    proof {
        lemma_holds_ext(
            level@.planes[1],
            10,
            7,
            |a: int, b: int| false || among(pts@, a, b),
            |a: int, b: int| among(garden_items(), a, b),
        );
    }
    triggers.set(2 * 10 + 2, 1);
    level.triggers = Some(triggers);
    proof {
        reveal_strlit(
            "; garden door: the plate opens the divider at (5,3)\non_enter:\n    push 5\n    push 3\n    clr_wall\n    halt\n",
        );
    }
    let bytes = script_code(GARDEN_SRC);
    let scripts = vec![Script { id: 1, bytes }];
    level.scripts = Some(scripts);
    assert(level@.scripts->0 =~= seq![ScriptView { id: 1, bytes: code_of(GARDEN_SRC@) }]);
    level
}

/// Add an empty hazards plane as plane 2.
fn add_hazards_plane(level: &mut Level)
    requires
        old(level)@.planes.len() == 2,
    ensures
        final(level)@ == (LevelView {
            planes: old(level)@.planes.push(zero_plane(old(level).width, old(level).height)),
            ..old(level)@
        }),
{
    let ghost before = level.planes@;
    level.planes.push(zeros(plane_len(level.width, level.height)));
    assert(level.planes@.map_values(|p: Vec<u8>| p@) =~= before.map_values(|p: Vec<u8>| p@).push(
        zero_plane(level.width, level.height),
    ));
}

// ---------------------------------------------------------------------------
// vault
// ---------------------------------------------------------------------------

/// The vault's walls: the border and a vault column at `x = 5`, rows 2 to 4.
pub open spec fn vault_wall(a: int, b: int) -> bool {
    on_border(8, 6, a, b) || (a == 5 && 2 <= b <= 4)
}

/// The vault's items: two in the open room, one locked behind the vault.
pub open spec fn vault_items() -> Seq<(u8, u8)> {
    seq![(3u8, 1u8), (2, 4), (6, 3)]
}

/// The vault: an 8×6 room with a walled-off vault column; a plate at (2,2),
/// id 1, runs the vault script.
pub open spec fn is_vault(l: LevelView) -> bool {
    &&& l.width == 8
    &&& l.height == 6
    &&& l.planes.len() == 2
    &&& plane_holds(l.planes[0], 8, 6, |a: int, b: int| vault_wall(a, b))
    &&& plane_holds(l.planes[1], 8, 6, |a: int, b: int| among(vault_items(), a, b))
    &&& l.triggers == Some(no_triggers(48).update(18, 1u8))
    &&& l.scripts == Some(seq![ScriptView { id: 1, bytes: code_of(VAULT_SRC@) }])
}

/// The **vault**: an 8×6 room with a walled-off vault column. A plate at
/// (2,2) runs the vault script, which bumps a scratch-RAM visit counter
/// (LOAD/STORE) and then opens the vault at (5,3), so the item behind it can
/// be collected.
pub fn vault() -> (l: Level)
    ensures
        is_vault(l@),
        l@.wf(),
{
    let (mut level, mut triggers) = base(8, 6);
    proof {
        lemma_zero_plane_holds(8, 6);
    }
    border(&mut level, Ghost(|a: int, b: int| false));
    paint_column(&mut level, WALLS_PLANE, 5, 2, 4, Ghost(|a: int, b: int| false || on_border(8, 6, a, b)));
    proof {
        lemma_holds_ext(
            level@.planes[0],
            8,
            6,
            |a: int, b: int| (false || on_border(8, 6, a, b)) || (a == 5 && 2 <= b <= 4),
            |a: int, b: int| vault_wall(a, b),
        );
    }
    let pts: Vec<(u8, u8)> = vec![(3u8, 1u8), (2, 4), (6, 3)];
    assert(pts@ == vault_items());
    paint_points(&mut level, ITEMS_PLANE, pts.as_slice(), Ghost(|a: int, b: int| false));
    proof {
        lemma_holds_ext(
            level@.planes[1],
            8,
            6,
            |a: int, b: int| false || among(pts@, a, b),
            |a: int, b: int| among(vault_items(), a, b),
        );
    }
    triggers.set(2 * 8 + 2, 1);
    level.triggers = Some(triggers);
    proof {
        reveal_strlit(
            "; vault: count visits in ram[0], then open the door at (5,3)\non_enter:\n    push 0\n    load\n    push 1\n    add\n    push 0\n    store\n    push 5\n    push 3\n    clr_wall\n    halt\n",
        );
    }
    let bytes = script_code(VAULT_SRC);
    let scripts = vec![Script { id: 1, bytes }];
    level.scripts = Some(scripts);
    assert(level@.scripts->0 =~= seq![ScriptView { id: 1, bytes: code_of(VAULT_SRC@) }]);
    level
}

// ---------------------------------------------------------------------------
// trial
// ---------------------------------------------------------------------------

/// The trial's walls: the border and a divider at `x = 5`, rows 1 to 4,
/// sealing off the right column; (5,3) is the door.
pub open spec fn trial_wall(a: int, b: int) -> bool {
    on_border(8, 6, a, b) || (a == 5 && 1 <= b <= 4)
}

/// The trial's items: two walled off in the right column, one in the room.
pub open spec fn trial_items() -> Seq<(u8, u8)> {
    seq![(6u8, 1u8), (6, 4), (1, 4)]
}

/// The trial: an 8×6 room with walls, three items, a spike at (2,3) and a
/// one-shot plate at (3,1), id `0x80`, running the trial door script.
pub open spec fn is_trial(l: LevelView) -> bool {
    &&& l.width == 8
    &&& l.height == 6
    &&& l.planes.len() == 3
    &&& plane_holds(l.planes[0], 8, 6, |a: int, b: int| trial_wall(a, b))
    &&& plane_holds(l.planes[1], 8, 6, |a: int, b: int| among(trial_items(), a, b))
    &&& plane_holds(l.planes[2], 8, 6, |a: int, b: int| a == 2 && b == 3)
    &&& l.triggers == Some(no_triggers(48).update(11, 0x80u8))
    &&& l.scripts == Some(seq![ScriptView { id: 0x80, bytes: code_of(TRIAL_SRC@) }])
}

/// The **trial**: a winnable and losable level with walls, items, a hazards
/// plane (plane 2) and a one-shot trigger. An 8×6 room whose right column
/// (items at (6,1) and (6,4)) is walled off behind a door at (5,3); a
/// one-shot plate at (3,1) (trigger id `0x80`) opens it. A spike hazard sits
/// at (2,3): stepping onto it loses. Collect all three items, (6,1), (6,4)
/// and (1,4), while avoiding the spikes to win.
pub fn trial() -> (l: Level)
    ensures
        is_trial(l@),
        l@.wf(),
{
    let (mut level, mut triggers) = base(8, 6);
    add_hazards_plane(&mut level);
    proof {
        lemma_zero_plane_holds(8, 6);
    }
    border(&mut level, Ghost(|a: int, b: int| false));
    paint_column(&mut level, WALLS_PLANE, 5, 1, 4, Ghost(|a: int, b: int| false || on_border(8, 6, a, b)));
    proof {
        lemma_holds_ext(
            level@.planes[0],
            8,
            6,
            |a: int, b: int| (false || on_border(8, 6, a, b)) || (a == 5 && 1 <= b <= 4),
            |a: int, b: int| trial_wall(a, b),
        );
    }
    let pts: Vec<(u8, u8)> = vec![(6u8, 1u8), (6, 4), (1, 4)];
    assert(pts@ == trial_items());
    paint_points(&mut level, ITEMS_PLANE, pts.as_slice(), Ghost(|a: int, b: int| false));
    proof {
        lemma_holds_ext(
            level@.planes[1],
            8,
            6,
            |a: int, b: int| false || among(pts@, a, b),
            |a: int, b: int| among(trial_items(), a, b),
        );
    }
    paint(
        &mut level,
        HAZARDS_PLANE,
        2,
        3,
        Ghost(|a: int, b: int| false),
        Ghost(|a: int, b: int| a == 2 && b == 3),
    );
    triggers.set(8 + 3, 0x80);
    level.triggers = Some(triggers);
    proof {
        reveal_strlit(
            "; trial door: the one-shot plate opens the door at (5,3)\non_enter:\n    push 5\n    push 3\n    clr_wall\n    halt\n",
        );
    }
    let bytes = script_code(TRIAL_SRC);
    let scripts = vec![Script { id: 0x80, bytes }];
    level.scripts = Some(scripts);
    assert(level@.scripts->0 =~= seq![ScriptView { id: 0x80, bytes: code_of(TRIAL_SRC@) }]);
    level
}

// ---------------------------------------------------------------------------
// circuit
// ---------------------------------------------------------------------------

/// The circuit's walls: the border, two full-height dividers at `x = 8` and
/// `x = 16`, and six short runs, each with one gap, that turn the sectors into
/// small mazes.
pub open spec fn circuit_wall(a: int, b: int) -> bool {
    ||| on_border(24, 16, a, b)
    ||| ((a == 8 || a == 16) && 1 <= b <= 14)
    ||| (b == 6 && 2 <= a <= 6 && a != 4)
    ||| (b == 10 && 2 <= a <= 7 && a != 6)
    ||| (b == 5 && 10 <= a <= 15 && a != 13)
    ||| (b == 9 && 9 <= a <= 14 && a != 11)
    ||| (b == 6 && 18 <= a <= 22 && a != 20)
    ||| (b == 10 && 17 <= a <= 21 && a != 19)
}

/// The circuit's twelve items.
pub open spec fn circuit_items() -> Seq<(u8, u8)> {
    seq![
        (3u8, 3u8),
        (6, 11),
        (2, 13),
        (10, 2),
        (14, 4),
        (11, 8),
        (14, 13),
        (18, 2),
        (21, 4),
        (19, 8),
        (21, 12),
        (18, 14),
    ]
}

/// The circuit's nine hazards.
pub open spec fn circuit_hazards() -> Seq<(u8, u8)> {
    seq![(4u8, 4u8), (3, 8), (7, 13), (11, 3), (14, 7), (10, 12), (19, 3), (22, 8), (18, 12)]
}

/// The circuit: a 24×16 three-sector level; one-shot plate A at (5,2), id
/// `0x80`, and plate B at (12,13), id `0x81`, each running its door script.
pub open spec fn is_circuit(l: LevelView) -> bool {
    &&& l.width == 24
    &&& l.height == 16
    &&& l.planes.len() == 3
    &&& plane_holds(l.planes[0], 24, 16, |a: int, b: int| circuit_wall(a, b))
    &&& plane_holds(l.planes[1], 24, 16, |a: int, b: int| among(circuit_items(), a, b))
    &&& plane_holds(l.planes[2], 24, 16, |a: int, b: int| among(circuit_hazards(), a, b))
    &&& l.triggers == Some(no_triggers(384).update(53, 0x80u8).update(324, 0x81u8))
    &&& l.scripts == Some(
        seq![
            ScriptView { id: 0x80, bytes: code_of(CIRCUIT_A_SRC@) },
            ScriptView { id: 0x81, bytes: code_of(CIRCUIT_B_SRC@) },
        ],
    )
}

/// The **circuit**: a 24×16 three-sector level with 12 items, 9 hazards and
/// two one-shot plates. Plate A at (5,2) opens divider door (8,4), then plate
/// B at (12,13) opens divider door (16,11).
pub fn circuit() -> (l: Level)
    ensures
        is_circuit(l@),
        l@.wf(),
{
    let (mut level, mut triggers) = base(24, 16);
    add_hazards_plane(&mut level);
    proof {
        lemma_zero_plane_holds(24, 16);
    }
    let ghost w0 = |a: int, b: int| false;
    border(&mut level, Ghost(w0));
    let ghost w1 = |a: int, b: int| w0(a, b) || on_border(24, 16, a, b);
    paint_column(&mut level, WALLS_PLANE, 8, 1, 14, Ghost(w1));
    let ghost w2 = |a: int, b: int| w1(a, b) || (a == 8 && 1 <= b <= 14);
    paint_column(&mut level, WALLS_PLANE, 16, 1, 14, Ghost(w2));
    let ghost w3 = |a: int, b: int| w2(a, b) || (a == 16 && 1 <= b <= 14);
    paint_run(&mut level, WALLS_PLANE, 6, 2, 6, 4, Ghost(w3));
    let ghost w4 = |a: int, b: int| w3(a, b) || (b == 6 && 2 <= a <= 6 && a != 4);
    paint_run(&mut level, WALLS_PLANE, 10, 2, 7, 6, Ghost(w4));
    let ghost w5 = |a: int, b: int| w4(a, b) || (b == 10 && 2 <= a <= 7 && a != 6);
    paint_run(&mut level, WALLS_PLANE, 5, 10, 15, 13, Ghost(w5));
    let ghost w6 = |a: int, b: int| w5(a, b) || (b == 5 && 10 <= a <= 15 && a != 13);
    paint_run(&mut level, WALLS_PLANE, 9, 9, 14, 11, Ghost(w6));
    let ghost w7 = |a: int, b: int| w6(a, b) || (b == 9 && 9 <= a <= 14 && a != 11);
    paint_run(&mut level, WALLS_PLANE, 6, 18, 22, 20, Ghost(w7));
    let ghost w8 = |a: int, b: int| w7(a, b) || (b == 6 && 18 <= a <= 22 && a != 20);
    paint_run(&mut level, WALLS_PLANE, 10, 17, 21, 19, Ghost(w8));
    proof {
        lemma_holds_ext(
            level@.planes[0],
            24,
            16,
            |a: int, b: int| w8(a, b) || (b == 10 && 17 <= a <= 21 && a != 19),
            |a: int, b: int| circuit_wall(a, b),
        );
    }
    let items: Vec<(u8, u8)> = vec![
        (3u8, 3u8),
        (6, 11),
        (2, 13),
        (10, 2),
        (14, 4),
        (11, 8),
        (14, 13),
        (18, 2),
        (21, 4),
        (19, 8),
        (21, 12),
        (18, 14),
    ];
    assert(items@ == circuit_items());
    paint_points(&mut level, ITEMS_PLANE, items.as_slice(), Ghost(|a: int, b: int| false));
    proof {
        lemma_holds_ext(
            level@.planes[1],
            24,
            16,
            |a: int, b: int| false || among(items@, a, b),
            |a: int, b: int| among(circuit_items(), a, b),
        );
    }
    let hazards: Vec<(u8, u8)> = vec![
        (4u8, 4u8),
        (3, 8),
        (7, 13),
        (11, 3),
        (14, 7),
        (10, 12),
        (19, 3),
        (22, 8),
        (18, 12),
    ];
    assert(hazards@ == circuit_hazards());
    paint_points(&mut level, HAZARDS_PLANE, hazards.as_slice(), Ghost(|a: int, b: int| false));
    proof {
        lemma_holds_ext(
            level@.planes[2],
            24,
            16,
            |a: int, b: int| false || among(hazards@, a, b),
            |a: int, b: int| among(circuit_hazards(), a, b),
        );
    }
    triggers.set(2 * 24 + 5, 0x80);
    triggers.set(13 * 24 + 12, 0x81);
    level.triggers = Some(triggers);
    proof {
        reveal_strlit(
            "; circuit plate A: open the first divider door at (8,4)\non_enter:\n    push 8\n    push 4\n    clr_wall\n    halt\n",
        );
        reveal_strlit(
            "; circuit plate B: open the second divider door at (16,11)\non_enter:\n    push 16\n    push 11\n    clr_wall\n    halt\n",
        );
    }
    let a = script_code(CIRCUIT_A_SRC);
    let b = script_code(CIRCUIT_B_SRC);
    let scripts = vec![Script { id: 0x80, bytes: a }, Script { id: 0x81, bytes: b }];
    level.scripts = Some(scripts);
    assert(level@.scripts->0 =~= seq![
        ScriptView { id: 0x80, bytes: code_of(CIRCUIT_A_SRC@) },
        ScriptView { id: 0x81, bytes: code_of(CIRCUIT_B_SRC@) },
    ]);
    level
}

/// Every sample, as `(filename, level)` pairs.
pub fn all() -> (v: Vec<(&'static str, Level)>)
    ensures
        v@.len() == 4,
        v@[0].0@ == "garden.bm"@ && is_garden(v@[0].1@),
        v@[1].0@ == "vault.bm"@ && is_vault(v@[1].1@),
        v@[2].0@ == "trial.bm"@ && is_trial(v@[2].1@),
        v@[3].0@ == "circuit.bm"@ && is_circuit(v@[3].1@),
        forall|i: int| 0 <= i < 4 ==> (#[trigger] v@[i]).1@.wf(),
{
    vec![("garden.bm", garden()), ("vault.bm", vault()), ("trial.bm", trial()), ("circuit.bm", circuit())]
}

} // verus!
