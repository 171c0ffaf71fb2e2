//! The game world: pure, deterministic game state.
//!
//! This module holds only world state and the step functions. It performs no
//! I/O, no windowing, no time, and no host randomness: given a [`Level`] and a
//! sequence of [`Move`]s, the final state is fixed.
use vstd::prelude::*;

use crate::bytes::copy_range;
use crate::text::{push_str, string_of};
use crate::format::{
    bit_of, level_bytes, lemma_byte_in_plane, lemma_index_in_range, lemma_tiles_bound, tiles, with_bit, Level,
    LevelView, ScriptView,
};
use crate::format_laws::lemma_byte_bits;
use crate::vm::{
    model_set_wall, run_from, Halt, HostModel, Machine, Next,
    Vm, VmHost, step,
};

verus! {

/// Plane 0: walls (`1` = wall, `0` = floor).
pub const WALLS_PLANE: usize = 0;

/// Plane 1: items (`1` = an item to collect).
pub const ITEMS_PLANE: usize = 1;

/// Plane 2: hazards (`1` = a spike; stepping on it loses).
pub const HAZARDS_PLANE: usize = 2;

/// A single movement input for one [`World::step`].
#[derive(Debug, Clone, Copy, PartialEq, Eq, Structural)]
pub enum Move {
    Up,
    Down,
    Left,
    Right,
    /// No input this step; the world is unchanged.
    Stay,
}

impl Move {
    /// The move a key stands for: WASD, either case.
    pub open spec fn of_key(c: char) -> Option<Move> {
        if c == 'w' || c == 'W' {
            Some(Move::Up)
        } else if c == 'a' || c == 'A' {
            Some(Move::Left)
        } else if c == 's' || c == 'S' {
            Some(Move::Down)
        } else if c == 'd' || c == 'D' {
            Some(Move::Right)
        } else {
            Option::None
        }
    }

    /// Map a WASD key to a [`Move`] (case-insensitive). Returns `None` for any
    /// key that is not a movement key (e.g. `q`), so front-ends can tell "no
    /// move" from "quit" themselves.
    pub fn from_key(c: char) -> (m: Option<Move>)
        ensures
            m == Move::of_key(c),
    {
        match c {
            'w' | 'W' => Some(Move::Up),
            'a' | 'A' => Some(Move::Left),
            's' | 'S' => Some(Move::Down),
            'd' | 'D' => Some(Move::Right),
            _ => Option::None,
        }
    }

    /// The column and row offsets of a move.
    pub open spec fn delta(self) -> (int, int) {
        match self {
            Move::Up => (0, -1),
            Move::Down => (0, 1),
            Move::Left => (-1, 0),
            Move::Right => (1, 0),
            Move::Stay => (0, 0),
        }
    }
}

/// Outcome of a single [`World::step`].
#[derive(Debug, Clone, Copy, PartialEq, Eq, Structural)]
pub enum StepResult {
    /// The player moved to a new tile.
    Moved,
    /// A move was attempted but the target was a wall or off the map edge; the
    /// player stayed put.
    Blocked,
    /// The input was [`Move::Stay`], or the game is over; nothing happened.
    Idle,
}

/// Why a level could not be turned into a playable [`World`].
#[derive(Debug, Clone, Copy, PartialEq, Eq, Structural)]
pub enum SpawnError {
    /// Every tile in the walls plane is a wall: nowhere to place the player.
    AllWalls,
}

impl SpawnError {
    /// The error as text.
    pub fn message(&self) -> (s: String)
        ensures
            s@ == "level is entirely walls: no floor tile to spawn the player on"@,
    {
        let mut v: Vec<char> = Vec::new();
        push_str(&mut v, "level is entirely walls: no floor tile to spawn the player on");
        string_of(&v)
    }
}

/// Where a game stands: the single source of truth for win and lose.
#[derive(Debug, Clone, Copy, PartialEq, Eq, Structural)]
pub enum GameState {
    Playing,
    /// Every item was collected.
    Won,
    /// The player stepped onto a hazard.
    Lost,
}

/// The result of a trigger script running after the player entered a tile.
#[derive(Debug, Clone, Copy, PartialEq, Eq, Structural)]
pub struct TriggerRun {
    /// The script id from the trigger plane (1..=255).
    pub script_id: u8,
    /// The tile whose trigger fired (where the player landed).
    pub x: u8,
    pub y: u8,
    /// Why the script's VM run stopped.
    pub halt: Halt,
}

/// The full outcome of one [`World::step_triggered`].
#[derive(Debug, Clone, Copy, PartialEq, Eq, Structural)]
pub struct StepOutcome {
    /// The movement result (identical to what [`World::step`] returns).
    pub result: StepResult,
    /// `Some` iff this step moved onto a tile with a nonzero trigger byte whose
    /// script was found and run.
    pub trigger: Option<TriggerRun>,
}

/// A loaded level plus the player position, score and game state.
#[derive(Debug, Clone)]
pub struct World {
    pub level: Level,
    /// Player column, `0..width`.
    pub px: u8,
    /// Player row, `0..height`.
    pub py: u8,
    /// Run seed for the trigger VM's PRNG, derived from the level bytes.
    pub seed: u32,
    /// Items collected so far.
    pub score: u32,
    /// Items the level held when the world was built.
    pub total_items: u32,
    /// Playing, won, or lost.
    pub state: GameState,
    /// Per-tile latch of one-shot triggers that already fired this run
    /// (row-major, one entry per tile).
    pub fired: Vec<bool>,
}

/// The mathematical content of a [`World`].
pub struct WorldView {
    pub level: LevelView,
    pub px: u8,
    pub py: u8,
    pub seed: u32,
    pub score: u32,
    pub total_items: u32,
    pub state: GameState,
    pub fired: Seq<bool>,
}

impl View for World {
    type V = WorldView;

    open spec fn view(&self) -> WorldView {
        WorldView {
            level: self.level@,
            px: self.px,
            py: self.py,
            seed: self.seed,
            score: self.score,
            total_items: self.total_items,
            state: self.state,
            fired: self.fired@,
        }
    }
}

/// FNV-1a/32 over `bytes`.
pub open spec fn fnv1a(bytes: Seq<u8>) -> u32
    decreases bytes.len(),
{
    if bytes.len() == 0 {
        0x811C_9DC5u32
    } else {
        (fnv1a(bytes.drop_last()) ^ (bytes.last() as u32)).wrapping_mul(0x0100_0193u32)
    }
}

/// The non-zero run seed for a level's bytes.
pub open spec fn seed_of(bytes: Seq<u8>) -> u32 {
    if fnv1a(bytes) == 0 {
        0xDEAD_BEEFu32
    } else {
        fnv1a(bytes)
    }
}

/// Set bits among tile indices `0..n` of a plane.
pub open spec fn count_bits(data: Seq<u8>, n: int) -> int
    decreases n,
{
    if n <= 0 {
        0
    } else {
        count_bits(data, n - 1) + (if bit_of(data, n - 1) {
            1int
        } else {
            0int
        })
    }
}

/// Items still lying in a level's items plane.
pub open spec fn items_left(l: LevelView) -> int {
    if l.planes.len() > 1 {
        count_bits(l.planes[1], l.tiles())
    } else {
        0
    }
}

/// `(x, y)` is the first floor tile in row-major order.
pub open spec fn is_spawn(l: LevelView, x: int, y: int) -> bool {
    &&& 0 <= x < l.width
    &&& 0 <= y < l.height
    &&& !l.bit(0, x, y)
    &&& forall|x2: int, y2: int|
        0 <= x2 < l.width && 0 <= y2 < l.height && (y2 < y || (y2 == y && x2 < x)) ==> #[trigger] l.bit(
            0,
            x2,
            y2,
        )
}

/// Every tile is a wall.
pub open spec fn all_walls(l: LevelView) -> bool {
    forall|x: int, y: int| 0 <= x < l.width && 0 <= y < l.height ==> #[trigger] l.bit(0, x, y)
}

/// The state after entering `(x, y)`: collect an item there, then lose on a
/// hazard or win once every item is collected.
pub open spec fn arrive(w: WorldView, x: int, y: int) -> WorldView {
    let has_item = w.level.bit(1, x, y);
    let level = if has_item {
        w.level.with_bit(1, x, y, false)
    } else {
        w.level
    };
    let score = if has_item {
        (w.score + 1) as u32
    } else {
        w.score
    };
    let state = if w.level.bit(2, x, y) {
        GameState::Lost
    } else if w.total_items > 0 && score >= w.total_items {
        GameState::Won
    } else {
        w.state
    };
    WorldView { level, px: x as u8, py: y as u8, score, state, ..w }
}

/// A freshly spawned world at `(x, y)`.
pub open spec fn spawned(l: LevelView, x: int, y: int) -> WorldView {
    arrive(
        WorldView {
            level: l,
            px: x as u8,
            py: y as u8,
            seed: seed_of(level_bytes(l)),
            score: 0,
            total_items: items_left(l) as u32,
            state: GameState::Playing,
            fired: Seq::new(l.tiles() as nat, |i: int| false),
        },
        x,
        y,
    )
}

/// One movement step: the next state and what happened.
pub open spec fn step_view(w: WorldView, mv: Move) -> (WorldView, StepResult) {
    if w.state != GameState::Playing || mv == Move::Stay {
        (w, StepResult::Idle)
    } else {
        let nx = w.px + mv.delta().0;
        let ny = w.py + mv.delta().1;
        if nx < 0 || ny < 0 || nx >= w.level.width || ny >= w.level.height {
            (w, StepResult::Blocked)
        } else if w.level.bit(0, nx, ny) {
            (w, StepResult::Blocked)
        } else {
            (arrive(w, nx, ny), StepResult::Moved)
        }
    }
}

/// The first script with id `id`.
pub open spec fn find_script(ss: Seq<ScriptView>, id: u8) -> Option<int>
    decreases ss.len(),
{
    if ss.len() == 0 {
        Option::None
    } else {
        match find_script(ss.drop_last(), id) {
            Some(k) => Some(k),
            Option::None => if ss.last().id == id {
                Some(ss.len() - 1)
            } else {
                Option::None
            },
        }
    }
}

/// The VM seed for a plate at `(x, y)`: the world seed mixed with the plate coordinates.
pub open spec fn plate_seed(seed: u32, x: u8, y: u8) -> u32 {
    seed.wrapping_add((x as u32).wrapping_mul(0x9E37_79B1u32)).wrapping_add(
        (y as u32).wrapping_mul(0x85EB_CA77u32),
    )
}

/// A fresh VM seeded with `seed`.
pub open spec fn fresh_machine(seed: u32) -> Machine {
    Machine {
        stack: Seq::empty(),
        ram: Seq::new(256, |i: int| 0u8),
        rng: if seed == 0 {
            0xDEAD_BEEFu32
        } else {
            seed
        },
    }
}

/// What the VM sees of a world.
pub open spec fn host_of(w: WorldView) -> HostModel {
    HostModel {
        level: w.level,
        player: (w.px as u16, w.py as u16),
        score: if w.score > 0xFFFF {
            0xFFFFu16
        } else {
            w.score as u16
        },
    }
}

/// The trigger id on the player's tile (0 when there is none).
pub open spec fn trigger_id_at(w: WorldView) -> u8 {
    let idx = w.level.index_of(w.px as int, w.py as int);
    match w.level.triggers {
        Some(t) => if idx < t.len() {
            t[idx]
        } else {
            0
        },
        Option::None => 0,
    }
}

/// Fire the trigger on the player's tile, if any: ids with the high bit set
/// fire only on the first entry of their tile.
pub open spec fn fire_view(w: WorldView) -> (WorldView, Option<TriggerRun>) {
    let id = trigger_id_at(w);
    let idx = w.level.index_of(w.px as int, w.py as int);
    let one_shot = id >= 0x80;
    if id == 0 || (one_shot && w.fired[idx]) {
        (w, Option::None)
    } else {
        match w.level.scripts {
            Option::None => (w, Option::None),
            Some(ss) => match find_script(ss, id) {
                Option::None => (w, Option::None),
                Some(k) => {
                    let r = run_from(
                        fresh_machine(plate_seed(w.seed, w.px, w.py)),
                        host_of(w),
                        ss[k].bytes,
                        0,
                        0,
                    );
                    let fired = if one_shot {
                        w.fired.update(idx, true)
                    } else {
                        w.fired
                    };
                    (
                        WorldView { level: r.2.level, fired, ..w },
                        Some(TriggerRun { script_id: id, x: w.px, y: w.py, halt: r.0 }),
                    )
                },
            },
        }
    }
}

/// A step that fires the trigger on the tile just entered.
pub open spec fn step_triggered_view(w: WorldView, mv: Move) -> (WorldView, StepOutcome) {
    let (w1, result) = step_view(w, mv);
    if result == StepResult::Moved {
        let (w2, t) = fire_view(w1);
        (w2, StepOutcome { result, trigger: t })
    } else {
        (w1, StepOutcome { result, trigger: Option::None })
    }
}

/// The planes the game reads, walls, items and hazards, are full planes
/// wherever the level has them. Any further plane is carried along unread.
pub open spec fn game_planes_sized(l: LevelView) -> bool {
    forall|i: int| 0 <= i < l.planes.len() && i <= 2 ==> #[trigger] l.planes[i].len() == l.plane_len()
}

impl WorldView {
    /// The invariant every world keeps: the planes it reads sized, the player on the map,
    /// one latch per tile, and the score counting exactly the items collected.
    pub open spec fn wf(self) -> bool {
        &&& game_planes_sized(self.level)
        &&& (self.px as int) < self.level.width
        &&& (self.py as int) < self.level.height
        &&& self.fired.len() == self.level.tiles()
        &&& self.score as int + items_left(self.level) == self.total_items as int
        &&& self.total_items as int <= self.level.tiles()
    }
}

impl World {
    /// The world's invariant.
    pub open spec fn wf(&self) -> bool {
        self@.wf()
    }

    /// The level as it stands now.
    pub fn level(&self) -> (l: &Level)
        ensures
            l@ == self@.level,
    {
        &self.level
    }

    /// The player's tile `(x, y)`.
    pub fn player(&self) -> (p: (u8, u8))
        ensures
            p == (self@.px, self@.py),
    {
        (self.px, self.py)
    }

    /// Items collected so far.
    pub fn score(&self) -> (s: u32)
        ensures
            s == self@.score,
    {
        self.score
    }

    /// Items the level held when the world was built.
    pub fn total_items(&self) -> (n: u32)
        ensures
            n == self@.total_items,
    {
        self.total_items
    }

    /// Playing, won, or lost.
    pub fn state(&self) -> (s: GameState)
        ensures
            s == self@.state,
    {
        self.state
    }
}

/// Writing one bit leaves every other bit of the plane as it was, and the
/// written bit reads back as written.
pub proof fn lemma_with_bit_bits(d: Seq<u8>, i: int, j: int, v: bool)
    requires
        0 <= i,
        0 <= j,
        i / 8 < d.len(),
        j / 8 < d.len(),
    ensures
        bit_of(with_bit(d, i, v), i) == v,
        j != i ==> bit_of(with_bit(d, i, v), j) == bit_of(d, j),
        with_bit(d, i, v).len() == d.len(),
{
    lemma_byte_bits(d[i / 8], (7 - i % 8) as u8, (7 - j % 8) as u8, v);
    if j != i && j / 8 == i / 8 {
        assert((7 - j % 8) as u8 != (7 - i % 8) as u8);
    }
}

pub proof fn lemma_count_bounds(d: Seq<u8>, n: int)
    ensures
        n >= 0 ==> 0 <= count_bits(d, n) <= n,
    decreases n,
{
    if n > 0 {
        lemma_count_bounds(d, n - 1);
    }
}

/// Clearing a set bit below `n` lowers the count of set bits below `n` by one.
pub proof fn lemma_count_clear(d: Seq<u8>, i: int, n: int)
    requires
        0 <= i < n,
        (n - 1) / 8 < d.len(),
        bit_of(d, i),
    ensures
        count_bits(with_bit(d, i, false), n) == count_bits(d, n) - 1,
    decreases n,
{
    let d2 = with_bit(d, i, false);
    lemma_with_bit_bits(d, i, n - 1, false);
    if n - 1 == i {
        lemma_count_unchanged(d, i, i);
    } else {
        lemma_count_clear(d, i, n - 1);
    }
}

/// Clearing bit `i` leaves the count of set bits below `n <= i` unchanged.
pub proof fn lemma_count_unchanged(d: Seq<u8>, i: int, n: int)
    requires
        0 <= n <= i,
        i / 8 < d.len(),
    ensures
        count_bits(with_bit(d, i, false), n) == count_bits(d, n),
    decreases n,
{
    if n > 0 {
        lemma_with_bit_bits(d, i, n - 1, false);
        lemma_count_unchanged(d, i, n - 1);
    }
}

/// What a VM run leaves alone: everything but the content of the walls plane.
pub open spec fn frame_same(h1: HostModel, h2: HostModel) -> bool {
    &&& h2.level.width == h1.level.width
    &&& h2.level.height == h1.level.height
    &&& h2.level.planes.len() == h1.level.planes.len()
    &&& forall|k: int| 0 <= k < h1.level.planes.len() ==> #[trigger] h2.level.planes[k].len()
        == h1.level.planes[k].len()
    &&& forall|k: int| 1 <= k < h1.level.planes.len() ==> #[trigger] h2.level.planes[k]
        == h1.level.planes[k]
    &&& h2.level.triggers == h1.level.triggers
    &&& h2.level.scripts == h1.level.scripts
    &&& h2.player == h1.player
    &&& h2.score == h1.score
}

/// A trigger script changes only the walls plane of the world it runs in.
pub proof fn lemma_run_frame(c: Machine, h: HostModel, script: Seq<u8>, pc: int, instr: int)
    ensures
        frame_same(h, run_from(c, h, script, pc, instr).2),
    decreases crate::vm::BUDGET - instr,
{
    if pc < script.len() && instr < crate::vm::BUDGET {
        lemma_step_frame(c, h, script, pc);
        match step(c, h, script, pc) {
            Next::Stop(_, _, _) => {},
            Next::Go(c2, h2, npc) => {
                lemma_run_frame(c2, h2, script, npc, instr + 1);
                let h3 = run_from(c2, h2, script, npc, instr + 1).2;
                assert(frame_same(h, h3)) by {
                    assert forall|k: int| 0 <= k < h.level.planes.len() implies #[trigger] h3.level.planes[k].len()
                        == h.level.planes[k].len() by {
                        assert(h2.level.planes[k].len() == h.level.planes[k].len());
                    }
                    assert forall|k: int| 1 <= k < h.level.planes.len() implies #[trigger] h3.level.planes[k]
                        == h.level.planes[k] by {
                        assert(h2.level.planes[k] == h.level.planes[k]);
                    }
                }
            },
        }
    }
}

proof fn lemma_step_frame(c: Machine, h: HostModel, script: Seq<u8>, pc: int)
    ensures
        match step(c, h, script, pc) {
            Next::Go(_, h2, _) => frame_same(h, h2),
            Next::Stop(_, _, h2) => frame_same(h, h2),
        },
{
    let s = c.stack;
    if s.len() >= 2 {
        let a = s[s.len() - 2];
        let b = s[s.len() - 1];
        lemma_set_wall_frame(h, a, b, true);
        lemma_set_wall_frame(h, a, b, false);
    }
}

proof fn lemma_set_wall_frame(h: HostModel, x: u16, y: u16, v: bool)
    ensures
        frame_same(h, model_set_wall(h, x, y, v)),
{
    let h2 = model_set_wall(h, x, y, v);
    if h.level.has_byte(0, x as int, y as int) {
        assert forall|k: int| 0 <= k < h.level.planes.len() implies #[trigger] h2.level.planes[k].len()
            == h.level.planes[k].len() by {}
        assert forall|k: int| 1 <= k < h.level.planes.len() implies #[trigger] h2.level.planes[k]
            == h.level.planes[k] by {}
    }
}

/// Read a plane bit for the VM: `false` out of range.
fn host_bit(level: &Level, plane: usize, x: u16, y: u16) -> (b: bool)
    ensures
        b == level@.bit_checked(plane as int, x as int, y as int),
{
    if x >= level.width as u16 || y >= level.height as u16 || plane >= level.planes.len() {
        return false;
    }
    proof {
        lemma_index_in_range(level.width, level.height, x as int, y as int);
        lemma_tiles_bound(level.width, level.height);
    }
    let idx = y as usize * level.width as usize + x as usize;
    if idx / 8 >= level.planes[plane].len() {
        return false;
    }
    level.get_bit(plane, x as u8, y as u8)
}

/// Write a walls-plane bit for the VM: a no-op out of range.
fn host_set_wall(level: &mut Level, x: u16, y: u16, value: bool)
    ensures
        final(level)@ == (if old(level)@.has_byte(0, x as int, y as int) {
            old(level)@.with_bit(0, x as int, y as int, value)
        } else {
            old(level)@
        }),
{
    if x >= level.width as u16 || y >= level.height as u16 || level.planes.len() == 0 {
        return;
    }
    proof {
        lemma_index_in_range(level.width, level.height, x as int, y as int);
        lemma_tiles_bound(level.width, level.height);
    }
    let idx = y as usize * level.width as usize + x as usize;
    if idx / 8 >= level.planes[0].len() {
        return;
    }
    level.set_bit(WALLS_PLANE, x as u8, y as u8, value);
}

/// The host a trigger script runs against: the world's level (moved in for
/// the run), the player's tile, and the score.
struct TileHost {
    level: Level,
    px: u8,
    py: u8,
    score: u32,
}

pub open spec fn saturate_u16(v: u32) -> u16 {
    if v > 0xFFFF {
        0xFFFFu16
    } else {
        v as u16
    }
}

fn saturating_u16(v: u32) -> (r: u16)
    ensures
        r == saturate_u16(v),
{
    if v > 0xFFFF {
        0xFFFF
    } else {
        v as u16
    }
}

impl VmHost for TileHost {
    closed spec fn host_model(&self) -> HostModel {
        HostModel {
            level: self.level@,
            player: (self.px as u16, self.py as u16),
            score: saturate_u16(self.score),
        }
    }

    fn get_wall(&self, x: u16, y: u16) -> (b: bool) {
        host_bit(&self.level, WALLS_PLANE, x, y)
    }

    fn set_wall(&mut self, x: u16, y: u16, value: bool) {
        host_set_wall(&mut self.level, x, y, value);
    }

    fn player_x(&self) -> (v: u16) {
        self.px as u16
    }

    fn player_y(&self) -> (v: u16) {
        self.py as u16
    }

    fn get_item(&self, x: u16, y: u16) -> (b: bool) {
        host_bit(&self.level, ITEMS_PLANE, x, y)
    }

    fn score(&self) -> (s: u16) {
        saturating_u16(self.score)
    }

    fn get_hazard(&self, x: u16, y: u16) -> (b: bool) {
        host_bit(&self.level, HAZARDS_PLANE, x, y)
    }
}

/// The world's implementation of the VM's world seam. All coordinate handling
/// is bounds-checked: out-of-range reads are `false`, writes are no-ops.
impl VmHost for World {
    closed spec fn host_model(&self) -> HostModel {
        host_of(self@)
    }

    fn get_wall(&self, x: u16, y: u16) -> (b: bool) {
        host_bit(&self.level, WALLS_PLANE, x, y)
    }

    fn set_wall(&mut self, x: u16, y: u16, value: bool) {
        host_set_wall(&mut self.level, x, y, value);
    }

    fn player_x(&self) -> (v: u16) {
        self.px as u16
    }

    fn player_y(&self) -> (v: u16) {
        self.py as u16
    }

    fn get_item(&self, x: u16, y: u16) -> (b: bool) {
        host_bit(&self.level, ITEMS_PLANE, x, y)
    }

    fn score(&self) -> (s: u16) {
        saturating_u16(self.score)
    }

    fn get_hazard(&self, x: u16, y: u16) -> (b: bool) {
        host_bit(&self.level, HAZARDS_PLANE, x, y)
    }
}

/// Derive a non-zero run seed deterministically from bytes (FNV-1a/32), so the
/// same level always yields the same seed.
fn derive_seed(bytes: &[u8]) -> (s: u32)
    ensures
        s == seed_of(bytes@),
{
    let mut h: u32 = 0x811C_9DC5;
    let mut i: usize = 0;
    while i < bytes.len()
        invariant
            i <= bytes.len(),
            h == fnv1a(bytes@.take(i as int)),
        decreases bytes.len() - i,
    {
        h ^= bytes[i] as u32;
        h = h.wrapping_mul(0x0100_0193);
        i = i + 1;
        assert(bytes@.take(i as int).drop_last() == bytes@.take((i - 1) as int));
    }
    assert(bytes@.take(i as int) == bytes@);
    if h == 0 {
        0xDEAD_BEEF
    } else {
        h
    }
}

/// Count the items lying in a level's items plane.
fn count_items(level: &Level) -> (n: u32)
    requires
        game_planes_sized(level@),
    ensures
        n == items_left(level@),
        n <= level@.tiles(),
{
    if level.planes.len() < 2 {
        return 0;
    }
    let data = &level.planes[ITEMS_PLANE];
    assert(level@.planes[1].len() == level@.plane_len());
    let n = tiles(level.width, level.height);
    let mut count: u32 = 0;
    let mut i: usize = 0;
    while i < n
        invariant
            n == level@.tiles(),
            n <= 65025,
            data@ == level@.planes[1],
            data@.len() == (n + 7) / 8,
            i <= n,
            count == count_bits(data@, i as int),
            count <= i,
        decreases n - i,
    {
        let bit = (7 - (i % 8)) as u8;
        if (data[i / 8] >> bit) & 1 == 1 {
            count = count + 1;
        }
        i = i + 1;
    }
    count
}

impl World {
    /// Enter `(x, y)`: collect an item there, then lose on a hazard or win
    /// once every item is collected.
    fn arrive(&mut self, x: u8, y: u8)
        requires
            game_planes_sized(old(self).level@),
            (x as int) < old(self).level@.width,
            (y as int) < old(self).level@.height,
            old(self).fired@.len() == old(self).level@.tiles(),
            old(self).score as int + items_left(old(self).level@) == old(self).total_items as int,
            old(self).total_items as int <= old(self).level@.tiles(),
        ensures
            final(self)@ == arrive(old(self)@, x as int, y as int),
            final(self).wf(),
    {
        let ghost w0 = self@;
        proof {
            lemma_index_in_range(self.level.width, self.level.height, x as int, y as int);
            lemma_byte_in_plane(self.level.width, self.level.height, x as int, y as int);
            lemma_tiles_bound(self.level.width, self.level.height);
        }
        if self.level.planes.len() > ITEMS_PLANE && self.level.get_bit(ITEMS_PLANE, x, y) {
            proof {
                let l = self.level@;
                let idx = l.index_of(x as int, y as int);
                lemma_count_clear(l.planes[1], idx, l.tiles());
                lemma_count_bounds(l.planes[1], l.tiles());
            }
            self.level.set_bit(ITEMS_PLANE, x, y, false);
            self.score = self.score + 1;
        }
        assert(game_planes_sized(self.level@)) by {
            assert forall|i: int| 0 <= i < self.level@.planes.len() && i <= 2 implies #[trigger] self.level@.planes[i].len()
                == self.level@.plane_len() by {
                assert(w0.level.planes[i].len() == w0.level.plane_len());
            }
        }
        if self.level.planes.len() > HAZARDS_PLANE && self.level.get_bit(HAZARDS_PLANE, x, y) {
            self.state = GameState::Lost;
        } else if self.total_items > 0 && self.score >= self.total_items {
            self.state = GameState::Won;
        }
        self.px = x;
        self.py = y;
        proof {
            let w1 = self@;
            assert(game_planes_sized(w1.level)) by {
                assert forall|i: int| 0 <= i < w1.level.planes.len() && i <= 2 implies #[trigger] w1.level.planes[i].len()
                    == w1.level.plane_len() by {
                    assert(w0.level.planes[i].len() == w0.level.plane_len());
                }
            }
            if w0.level.bit(1, x as int, y as int) {
                assert(w1.level.planes[2] == w0.level.planes[2] || w0.level.planes.len() <= 2);
            }
            assert(w1 == arrive(w0, x as int, y as int));
        }
    }

    /// Build a world from a level, spawning the player on the first floor
    /// tile in row-major order (the first walls-plane bit == 0). Fails with
    /// [`SpawnError::AllWalls`] if the level has no floor tile.
    pub fn new(level: Level) -> (r: Result<World, SpawnError>)
        requires
            game_planes_sized(level@),
        ensures
            r is Err <==> all_walls(level@),
            r matches Err(e) ==> e == SpawnError::AllWalls,
            r matches Ok(w) ==> {
                &&& w.wf()
                &&& is_spawn(level@, w@.px as int, w@.py as int)
                &&& w@ == spawned(level@, w@.px as int, w@.py as int)
            },
    {
        let bytes = level.to_bytes();
        let seed = derive_seed(bytes.as_slice());
        let total = count_items(&level);
        let mut y: u8 = 0;
        while y < level.height
            invariant
                game_planes_sized(level@),
                y <= level.height,
                seed == seed_of(level_bytes(level@)),
                total == items_left(level@),
                total <= level@.tiles(),
                forall|x2: int, y2: int|
                    0 <= x2 < level.width && 0 <= y2 < y ==> #[trigger] level@.bit(0, x2, y2),
            decreases level.height - y,
        {
            let mut x: u8 = 0;
            while x < level.width
                invariant
                    game_planes_sized(level@),
                    y < level.height,
                    x <= level.width,
                    seed == seed_of(level_bytes(level@)),
                    total == items_left(level@),
                    total <= level@.tiles(),
                    forall|x2: int, y2: int|
                        0 <= x2 < level.width && 0 <= y2 < y ==> #[trigger] level@.bit(0, x2, y2),
                    forall|x2: int| 0 <= x2 < x ==> #[trigger] level@.bit(0, x2, y as int),
                decreases level.width - x,
            {
                proof {
                    lemma_byte_in_plane(level.width, level.height, x as int, y as int);
                    lemma_tiles_bound(level.width, level.height);
                }
                if !level.get_bit(WALLS_PLANE, x, y) {
                    let ghost l = level@;
                    let n = tiles(level.width, level.height);
                    let mut fired: Vec<bool> = Vec::new();
                    let mut i: usize = 0;
                    while i < n
                        invariant
                            i <= n,
                            fired@ == Seq::new(i as nat, |k: int| false),
                        decreases n - i,
                    {
                        fired.push(false);
                        i = i + 1;
                        assert(fired@ == Seq::new(i as nat, |k: int| false));
                    }
                    let mut world = World {
                        level,
                        px: x,
                        py: y,
                        seed,
                        score: 0,
                        total_items: total,
                        state: GameState::Playing,
                        fired,
                    };
                    world.arrive(x, y);
                    proof {
                        assert forall|x2: int, y2: int|
                            0 <= x2 < l.width && 0 <= y2 < l.height && (y2 < y || (y2 == y && x2
                                < x)) implies #[trigger] l.bit(0, x2, y2) by {
                            if y2 < y {
                            } else {
                            }
                        }
                    }
                    return Ok(world);
                }
                x = x + 1;
            }
            y = y + 1;
        }
        Err(SpawnError::AllWalls)
    }
}

/// The first script with id `id`.
fn find_script_index(ss: &Vec<crate::format::Script>, id: u8) -> (r: Option<usize>)
    ensures
        r matches Some(k) ==> find_script(ss@.map_values(|sc: crate::format::Script| sc@), id)
            == Some(k as int) && k < ss.len(),
        r is None ==> find_script(ss@.map_values(|sc: crate::format::Script| sc@), id) is None,
{
    let ghost v = ss@.map_values(|sc: crate::format::Script| sc@);
    let mut i: usize = 0;
    while i < ss.len()
        invariant
            v == ss@.map_values(|sc: crate::format::Script| sc@),
            i <= ss.len(),
            find_script(v.take(i as int), id) is None,
        decreases ss.len() - i,
    {
        assert(v.take(i + 1).drop_last() == v.take(i as int));
        if ss[i].id == id {
            assert(find_script(v.take(i + 1), id) == Some(i as int));
            proof {
                lemma_find_prefix(v, id, i as int + 1);
            }
            return Some(i);
        }
        i = i + 1;
    }
    assert(v.take(i as int) == v);
    None
}

/// A script found in a prefix is the one found in the whole table.
proof fn lemma_find_prefix(v: Seq<ScriptView>, id: u8, n: int)
    requires
        0 <= n <= v.len(),
        find_script(v.take(n), id) is Some,
    ensures
        find_script(v, id) == find_script(v.take(n), id),
    decreases v.len() - n,
{
    if n < v.len() {
        assert(v.take(n + 1).drop_last() == v.take(n));
        lemma_find_prefix(v, id, n + 1);
    } else {
        assert(v.take(n) == v);
    }
}

impl World {
    /// Advance the world by one input. Moving into a wall or off the map edge
    /// is a no-op (the player stays); once the game is won or lost, every
    /// input is ignored. Entering a tile collects its item, and then a hazard
    /// there loses the game, or collecting the last item wins it.
    pub fn step(&mut self, input: Move) -> (r: StepResult)
        requires
            old(self).wf(),
        ensures
            final(self).wf(),
            (final(self)@, r) == step_view(old(self)@, input),
    {
        if self.state != GameState::Playing {
            return StepResult::Idle;
        }
        let (dx, dy): (i32, i32) = match input {
            Move::Up => (0, -1),
            Move::Down => (0, 1),
            Move::Left => (-1, 0),
            Move::Right => (1, 0),
            Move::Stay => return StepResult::Idle,
        };
        let nx = self.px as i32 + dx;
        let ny = self.py as i32 + dy;

        // Off the map edge: no-op.
        if nx < 0 || ny < 0 || nx >= self.level.width as i32 || ny >= self.level.height as i32 {
            return StepResult::Blocked;
        }
        let nx = nx as u8;
        let ny = ny as u8;
        proof {
            lemma_byte_in_plane(self.level.width, self.level.height, nx as int, ny as int);
        }
        // Into a wall: no-op.
        if self.level.planes.len() > WALLS_PLANE && self.level.get_bit(WALLS_PLANE, nx, ny) {
            return StepResult::Blocked;
        }
        self.arrive(nx, ny);
        StepResult::Moved
    }

    /// If the player's tile has a nonzero trigger byte with a matching script,
    /// run it on a fresh VM against this world and report the outcome.
    fn fire_trigger(&mut self) -> (t: Option<TriggerRun>)
        requires
            old(self).wf(),
        ensures
            final(self).wf(),
            (final(self)@, t) == fire_view(old(self)@),
    {
        let ghost w0 = self@;
        let x = self.px;
        let y = self.py;
        proof {
            lemma_index_in_range(self.level.width, self.level.height, x as int, y as int);
            lemma_tiles_bound(self.level.width, self.level.height);
        }
        let idx = y as usize * self.level.width as usize + x as usize;
        let id = match &self.level.triggers {
            Option::None => return Option::None,
            Some(t) => {
                if idx >= t.len() {
                    return Option::None;
                }
                t[idx]
            },
        };
        if id == 0 {
            return Option::None;
        }
        let one_shot = id >= 0x80;
        if one_shot && self.fired[idx] {
            return Option::None;
        }
        let bytes = match &self.level.scripts {
            Option::None => return Option::None,
            Some(ss) => match find_script_index(ss, id) {
                Option::None => return Option::None,
                Some(k) => copy_range(ss[k].bytes.as_slice(), 0, ss[k].bytes.len()),
            },
        };
        if one_shot {
            self.fired.set(idx, true);
        }

        // Seed the run from the world seed mixed with the plate coordinates, so
        // different plates get different RAND streams and the same plate
        // replays identically.
        let seed = self.seed.wrapping_add((x as u32).wrapping_mul(0x9E37_79B1)).wrapping_add(
            (y as u32).wrapping_mul(0x85EB_CA77),
        );

        // The script runs against the world's level, moved into a host for the
        // run and moved back afterwards.
        let mut level = Level {
            width: 0,
            height: 0,
            planes: Vec::new(),
            triggers: Option::None,
            scripts: Option::None,
        };
        std::mem::swap(&mut level, &mut self.level);
        let mut host = TileHost { level, px: x, py: y, score: self.score };
        assert(host.host_model() == host_of(w0));
        let mut vm = Vm::new(seed);
        assert(vm.machine() == fresh_machine(seed));
        assert(seed == plate_seed(w0.seed, w0.px, w0.py));
        let halt = vm.run(bytes.as_slice(), &mut host);
        self.level = host.level;
        proof {
            let h0 = host_of(w0);
            let r = run_from(fresh_machine(seed), h0, bytes@, 0, 0);
            lemma_run_frame(fresh_machine(seed), h0, bytes@, 0, 0);
            let w1 = self@;
            assert(game_planes_sized(w1.level)) by {
                assert forall|i: int| 0 <= i < w1.level.planes.len() && i <= 2 implies #[trigger] w1.level.planes[i].len()
                    == w1.level.plane_len() by {
                    assert(r.2.level.planes[i].len() == h0.level.planes[i].len());
                }
            }
            if w0.level.planes.len() > 1 {
                assert(r.2.level.planes[1] == h0.level.planes[1]);
            }
            assert(items_left(w1.level) == items_left(w0.level));
            let ss = w0.level.scripts->0;
            let k = find_script(ss, id)->0;
            assert(bytes@ == ss[k].bytes);
            assert(w1.level == r.2.level);
            assert(r.0 == halt);
        }
        Some(TriggerRun { script_id: id, x, y, halt })
    }

    /// Advance the world by one input and fire any trigger the player lands
    /// on: the movement of [`World::step`], then, only on a successful
    /// `Moved`, the trigger of the tile just entered, whose script runs on the
    /// BitVM against this world and may change the walls plane (for example
    /// open a door).
    ///
    /// Triggers fire after the move resolves, on the tile just entered. Ids
    /// `1..=127` repeat on every entry; ids with the high bit set fire only
    /// on the first entry of their tile this run. A zero byte, or an id with
    /// no matching script, fires nothing. The VM is hard-capped, so a
    /// malformed or looping script halts cleanly and the game continues.
    pub fn step_triggered(&mut self, input: Move) -> (o: StepOutcome)
        requires
            old(self).wf(),
        ensures
            final(self).wf(),
            (final(self)@, o) == step_triggered_view(old(self)@, input),
    {
        let result = self.step(input);
        let trigger = if result == StepResult::Moved {
            self.fire_trigger()
        } else {
            Option::None
        };
        StepOutcome { result, trigger }
    }
}

/// The world after a sequence of moves, each firing triggers.
pub open spec fn play_moves(w: WorldView, moves: Seq<Move>) -> WorldView
    decreases moves.len(),
{
    if moves.len() == 0 {
        w
    } else {
        play_moves(step_triggered_view(w, moves[0]).0, moves.drop_first())
    }
}


impl World {
    /// Apply a recorded run: each move in turn, firing triggers, as
    /// `play --replay` does on a fresh world.
    pub fn apply_moves(&mut self, moves: &[Move])
        requires
            old(self).wf(),
        ensures
            final(self).wf(),
            final(self)@ == play_moves(old(self)@, moves@),
    {
        let ghost start = self@;
        let mut i: usize = 0;
        assert(moves@.skip(0) =~= moves@);
        while i < moves.len()
            invariant
                self.wf(),
                i <= moves.len(),
                play_moves(self@, moves@.skip(i as int)) == play_moves(start, moves@),
            decreases moves.len() - i,
        {
            proof {
                assert(moves@.skip(i as int).drop_first() =~= moves@.skip(i + 1));
            }
            self.step_triggered(moves[i]);
            i = i + 1;
        }
        proof {
            assert(moves@.skip(i as int) =~= Seq::<Move>::empty());
        }
    }
}

/// The character for tile `(x, y)`: the player `@` on top, then wall `#`,
/// hazard `^`, item `*`, floor `.`.
pub open spec fn tile_char(w: WorldView, x: int, y: int) -> char {
    if x == w.px && y == w.py {
        '@'
    } else if w.level.bit(0, x, y) {
        '#'
    } else if w.level.bit(2, x, y) {
        '^'
    } else if w.level.bit(1, x, y) {
        '*'
    } else {
        '.'
    }
}

/// The first `n` characters of row `y`.
pub open spec fn row_chars(w: WorldView, y: int, n: int) -> Seq<char>
    decreases n,
{
    if n <= 0 {
        seq![]
    } else {
        row_chars(w, y, n - 1).push(tile_char(w, n - 1, y))
    }
}

/// The first `m` rows, each ending in a newline.
pub open spec fn rows_chars(w: WorldView, m: int) -> Seq<char>
    decreases m,
{
    if m <= 0 {
        seq![]
    } else {
        rows_chars(w, m - 1) + row_chars(w, m - 1, w.level.width as int) + seq!['\n']
    }
}

impl World {
    /// Draw the walls plane as ASCII (`#` = wall, `.` = floor, `*` = item,
    /// `^` = hazard) with the player drawn as `@` on top. Each row ends in a
    /// newline.
    pub fn render(&self) -> (s: String)
        requires
            self.wf(),
        ensures
            s@ == rows_chars(self@, self@.level.height as int),
    {
        let ghost w = self@;
        let mut out: Vec<char> = Vec::new();
        let mut y: u8 = 0;
        while y < self.level.height
            invariant
                w == self@,
                self.wf(),
                y <= self.level.height,
                out@ == rows_chars(w, y as int),
            decreases self.level.height - y,
        {
            let mut x: u8 = 0;
            let ghost before = out@;
            while x < self.level.width
                invariant
                    w == self@,
                    self.wf(),
                    y < self.level.height,
                    x <= self.level.width,
                    out@ == before + row_chars(w, y as int, x as int),
                decreases self.level.width - x,
            {
                proof {
                    lemma_byte_in_plane(self.level.width, self.level.height, x as int, y as int);
                }
                let ch = if x == self.px && y == self.py {
                    '@'
                } else if self.level.get_bit(WALLS_PLANE, x, y) {
                    '#'
                } else if self.level.get_bit(HAZARDS_PLANE, x, y) {
                    '^'
                } else if self.level.get_bit(ITEMS_PLANE, x, y) {
                    '*'
                } else {
                    '.'
                };
                out.push(ch);
                x = x + 1;
            }
            out.push('\n');
            y = y + 1;
        }
        crate::text::string_of(&out)
    }
}

} // verus!
