//! The BitVM: stack, arithmetic, world and memory opcodes, control flow,
//! and every cap and malformed-bytecode guard, run against a small grid host.
use bitmaze::vm::{Halt, Vm, VmHost};

/// A trivial standalone host: a small wall grid plus a player position, so
/// the VM is testable with no `World`, no level, and no window.
struct TestHost {
    w: u16,
    h: u16,
    walls: Vec<bool>,
    items: Vec<bool>,
    hazards: Vec<bool>,
    px: u16,
    py: u16,
    score: u16,
}

impl TestHost {
    fn new(w: u16, h: u16) -> TestHost {
        let n = (w * h) as usize;
        TestHost {
            w,
            h,
            walls: vec![false; n],
            items: vec![false; n],
            hazards: vec![false; n],
            px: 0,
            py: 0,
            score: 0,
        }
    }
}

impl VmHost for TestHost {
    fn get_wall(&self, x: u16, y: u16) -> bool {
        if x >= self.w || y >= self.h {
            return false;
        }
        self.walls[(y * self.w + x) as usize]
    }
    fn set_wall(&mut self, x: u16, y: u16, value: bool) {
        if x >= self.w || y >= self.h {
            return; // OOB write is a documented no-op
        }
        self.walls[(y * self.w + x) as usize] = value;
    }
    fn player_x(&self) -> u16 {
        self.px
    }
    fn player_y(&self) -> u16 {
        self.py
    }
    fn get_item(&self, x: u16, y: u16) -> bool {
        if x >= self.w || y >= self.h {
            return false;
        }
        self.items[(y * self.w + x) as usize]
    }
    fn score(&self) -> u16 {
        self.score
    }
    fn get_hazard(&self, x: u16, y: u16) -> bool {
        if x >= self.w || y >= self.h {
            return false;
        }
        self.hazards[(y * self.w + x) as usize]
    }
}

/// Run `script` on a fresh VM (seed 1) against `host`, returning the halt
/// reason. Exposes the stack via a trailing PUSH-inspection pattern is
/// avoided — tests assert through the host or the returned reason.
fn run_on(host: &mut TestHost, script: &[u8]) -> Halt {
    Vm::new(1).run(script, host)
}

// ---- stack ops -------------------------------------------------------

#[test]
fn push8_dup_add_writes_expected_wall() {
    // push 3; dup; add -> 6 on stack; then push 0; ... we prove the numeric
    // result by using it as a coordinate: push 3;dup;add = 6, push 0, we
    // want set_wall(6,0). Stack for SET_WALL is x y. So: push 6 (via
    // 3 dup add), push 0, set_wall.
    let mut host = TestHost::new(8, 1);
    let script = [
        0x10, 0x03, // push 3
        0x13, //       dup       -> [3,3]
        0x20, //       add       -> [6]
        0x10, 0x00, // push 0    -> [6,0]
        0x31, //       set_wall(6,0)
        0x01, //       halt
    ];
    assert_eq!(run_on(&mut host, &script), Halt::Halt);
    assert!(host.get_wall(6, 0), "3+3=6 must select column 6");
}

#[test]
fn push16_little_endian() {
    // push16 0x0102 = 258; but coords are u16 so clamp via a small grid:
    // instead prove LE decoding by subtracting. push16 0x0005 (05 00) -> 5.
    let mut host = TestHost::new(8, 1);
    let script = [0x11, 0x05, 0x00, 0x10, 0x00, 0x31, 0x01]; // set_wall(5,0)
    assert_eq!(run_on(&mut host, &script), Halt::Halt);
    assert!(host.get_wall(5, 0));
}

#[test]
fn pop_discards_top() {
    // push 1; push 0; pop -> [1]; push 0; set_wall(1,0)? Stack after pop is
    // [1]; push 0 -> [1,0]; set_wall(1,0).
    let mut host = TestHost::new(8, 1);
    let script = [0x10, 0x01, 0x10, 0x00, 0x12, 0x10, 0x00, 0x31, 0x01];
    assert_eq!(run_on(&mut host, &script), Halt::Halt);
    assert!(host.get_wall(1, 0));
}

#[test]
fn sub_wraps() {
    // push 0; push 1; sub -> 0-1 wraps to 0xFFFF. Use as a column into a
    // grid: OOB set is a no-op, so instead read it back via GET_WALL bounds.
    // Simpler: 0-1=0xFFFF; get_wall(0xFFFF, 0) OOB -> false (no panic).
    let mut host = TestHost::new(4, 4);
    let script = [
        0x10, 0x00, // push 0
        0x10, 0x01, // push 1
        0x21, //       sub -> 0xFFFF
        0x10, 0x00, // push 0 (y)
        0x30, //       get_wall(0xFFFF, 0) OOB -> pushes 0
        0x01,
    ];
    assert_eq!(run_on(&mut host, &script), Halt::Halt);
}

#[test]
fn add_wraps() {
    // 0xFFFF + 1 = 0 (wrapping). Prove by using result as x for set_wall(0,0).
    let mut host = TestHost::new(4, 1);
    let script = [
        0x11, 0xFF, 0xFF, // push16 0xFFFF
        0x10, 0x01, //       push 1
        0x20, //             add -> 0 (wrapping)
        0x10, 0x00, //       push 0 (y)
        0x31, //             set_wall(0,0)
        0x01,
    ];
    assert_eq!(run_on(&mut host, &script), Halt::Halt);
    assert!(host.get_wall(0, 0), "0xFFFF+1 wraps to 0");
}

// ---- world ops -------------------------------------------------------

#[test]
fn set_get_clr_wall_roundtrip() {
    let mut host = TestHost::new(4, 4);
    // set_wall(2,1)
    assert_eq!(run_on(&mut host, &[0x10, 0x02, 0x10, 0x01, 0x31, 0x01]), Halt::Halt);
    assert!(host.get_wall(2, 1));
    // clr_wall(2,1)
    assert_eq!(run_on(&mut host, &[0x10, 0x02, 0x10, 0x01, 0x32, 0x01]), Halt::Halt);
    assert!(!host.get_wall(2, 1));
}

#[test]
fn get_wall_reads_bit_via_setwall_of_result() {
    // Pre-set (1,1); GET_WALL(1,1) -> 1; then use that 1 as x for set_wall(1,0).
    let mut host = TestHost::new(4, 4);
    host.set_wall(1, 1, true);
    let script = [
        0x10, 0x01, 0x10, 0x01, // push 1,1
        0x30, //                   get_wall(1,1) -> 1
        0x10, 0x00, //             push 0 (y)
        0x31, //                   set_wall(1,0)
        0x01,
    ];
    assert_eq!(run_on(&mut host, &script), Halt::Halt);
    assert!(host.get_wall(1, 0), "GET_WALL of a set tile yields 1");
}

#[test]
fn oob_wall_ops_are_safe_noops() {
    let mut host = TestHost::new(2, 2);
    // set_wall(1000, 1000) then get_wall(1000,1000) — no panic, stays clear.
    assert_eq!(
        run_on(&mut host, &[0x11, 0xE8, 0x03, 0x11, 0xE8, 0x03, 0x31, 0x01]),
        Halt::Halt
    );
    assert!(!host.get_wall(1000, 1000));
}

#[test]
fn player_x_and_y() {
    // Put player at (3,2); PLAYER_X, PLAYER_Y -> set_wall(3,2).
    let mut host = TestHost::new(4, 4);
    host.px = 3;
    host.py = 2;
    let script = [0x40, 0x41, 0x31, 0x01]; // player_x, player_y, set_wall(3,2)
    assert_eq!(run_on(&mut host, &script), Halt::Halt);
    assert!(host.get_wall(3, 2));
}

// ---- rng determinism -------------------------------------------------

#[test]
fn rand_is_deterministic_known_sequence() {
    // xorshift32 seeded with 1 yields low-16 = [0x2021, 0x0601, 0xa8c5, ...].
    // Verified with an independent reference implementation.
    let mut vm = Vm::new(1);
    assert_eq!(vm.next_rand(), 0x2021);
    assert_eq!(vm.next_rand(), 0x0601);
    assert_eq!(vm.next_rand(), 0xa8c5);
    assert_eq!(vm.next_rand(), 0x994f);

    // A different seed gives a different sequence.
    let mut vm2 = Vm::new(0x1234_5678);
    assert_eq!(vm2.next_rand(), 0x5aa5);
    assert_eq!(vm2.next_rand(), 0x24a3);

    // Same seed, same sequence — replays are reproducible.
    let mut a = Vm::new(42);
    let mut b = Vm::new(42);
    for _ in 0..16 {
        assert_eq!(a.next_rand(), b.next_rand());
    }
}

#[test]
fn rand_opcode_pushes_low16_and_uses_it() {
    // RAND -> 0x2021 (col 0x21=33 masked into a grid); prove RAND lands on
    // the stack by consuming it as a coordinate (OOB set is a safe no-op).
    let mut host = TestHost::new(4, 4);
    let script = [0x50, 0x10, 0x00, 0x31, 0x01]; // rand, push 0, set_wall(r,0)
    assert_eq!(run_on(&mut host, &script), Halt::Halt);
    // 0x2021 is OOB for a 4x4 grid -> no panic, nothing set.
    assert!(!host.get_wall(0, 0));
}

// ---- control flow ----------------------------------------------------

#[test]
fn jmp_skips_forward() {
    // JMP +2 skips over a set_wall(0,0) we don't want, landing on set_wall(1,0).
    let mut host = TestHost::new(4, 1);
    let script = [
        0x60, 0x02, //             jmp +2 (skip the next 2 bytes)
        0x10, 0x00, //             (skipped) push 0
        0x10, 0x01, 0x10, 0x00, // push 1, push 0
        0x31, //                   set_wall(1,0)
        0x01,
    ];
    // next_pc after operand is 2; +2 -> 4, which is "push 1".
    assert_eq!(run_on(&mut host, &script), Halt::Halt);
    assert!(host.get_wall(1, 0));
}

#[test]
fn jz_jumps_when_zero_and_falls_through_when_nonzero() {
    // push 0; jz +3 -> jumps over push1/push0; lands on set_wall using... we
    // arrange the taken branch to set (2,0). Layout:
    //  0: 10 00      push 0
    //  2: 61 03      jz +3     (next_pc=4, +3 -> 7)
    //  4: 10 09      push 9   (skipped when taken)
    //  6: 00         nop      (skipped when taken)
    //  7: 10 02 10 00 31   push2 push0 set_wall(2,0)
    // 12: 01        halt
    let mut host = TestHost::new(4, 1);
    let taken = [
        0x10, 0x00, 0x61, 0x03, 0x10, 0x09, 0x00, 0x10, 0x02, 0x10, 0x00, 0x31, 0x01,
    ];
    assert_eq!(run_on(&mut host, &taken), Halt::Halt);
    assert!(host.get_wall(2, 0), "JZ with 0 must take the jump");

    // Non-zero: JZ pops the 1 and falls through; the following instructions
    // push a fresh (1,0) and set it, proving control continued past the JZ.
    let mut host2 = TestHost::new(4, 1);
    let not_taken = [
        0x10, 0x01, // push 1 (nonzero test value)
        0x61, 0x02, // jz +2 (NOT taken; consumes the 1, stack now empty)
        0x10, 0x01, // push 1 (x)
        0x10, 0x00, // push 0 (y)
        0x31, //       set_wall(1,0)
        0x01,
    ];
    assert_eq!(run_on(&mut host2, &not_taken), Halt::Halt);
    assert!(host2.get_wall(1, 0), "JZ with nonzero falls through");
}

// ---- caps & malformed bytecode --------------------------------------

#[test]
fn pushing_forever_halts_with_stack_overflow() {
    // push 1; jmp -4 (back to start) — grows the stack without bound.
    let mut host = TestHost::new(1, 1);
    let script = [0x10, 0x01, 0x60, 0xFC]; // 0xFC = -4
    assert_eq!(run_on(&mut host, &script), Halt::StackOverflow);
}

#[test]
fn infinite_loop_halts_with_budget_quickly() {
    // JMP -2 is a tight self-loop touching nothing. Must halt via the budget
    // cap. This test proves it does not hang.
    let mut host = TestHost::new(1, 1);
    let script = [0x60, 0xFE]; // 0xFE = -2 -> jumps onto itself
    assert_eq!(run_on(&mut host, &script), Halt::Budget);
}

#[test]
fn bad_opcode_halts() {
    let mut host = TestHost::new(1, 1);
    assert_eq!(run_on(&mut host, &[0xEE, 0x01]), Halt::BadOpcode(0xEE));
}

#[test]
fn stack_underflow_halts() {
    let mut host = TestHost::new(1, 1);
    assert_eq!(run_on(&mut host, &[0x20]), Halt::StackUnderflow); // ADD on empty
    assert_eq!(run_on(&mut host, &[0x12]), Halt::StackUnderflow); // POP on empty
    assert_eq!(run_on(&mut host, &[0x31, 0x01]), Halt::StackUnderflow); // SET_WALL
}

#[test]
fn truncated_operands_halt_cleanly() {
    let mut host = TestHost::new(1, 1);
    assert_eq!(run_on(&mut host, &[0x10]), Halt::Truncated); // PUSH8, no byte
    assert_eq!(run_on(&mut host, &[0x11, 0x00]), Halt::Truncated); // PUSH16, 1 byte
    assert_eq!(run_on(&mut host, &[0x60]), Halt::Truncated); // JMP, no offset
    assert_eq!(run_on(&mut host, &[0x10, 0x00, 0x61]), Halt::Truncated); // JZ, no off
}

#[test]
fn jump_out_of_bounds_halts_cleanly() {
    let mut host = TestHost::new(1, 1);
    // JMP -100 lands before the start.
    assert_eq!(run_on(&mut host, &[0x60, 0x9C]), Halt::BadJump); // 0x9C = -100
    // JMP +100 lands well past the end.
    assert_eq!(run_on(&mut host, &[0x60, 0x64]), Halt::BadJump); // +100
}

#[test]
fn empty_and_halt_scripts_are_clean() {
    let mut host = TestHost::new(1, 1);
    assert_eq!(run_on(&mut host, &[]), Halt::EndOfScript);
    assert_eq!(run_on(&mut host, &[0x00, 0x00]), Halt::EndOfScript); // NOP NOP, runs off
    assert_eq!(run_on(&mut host, &[0x01]), Halt::Halt);
}

// ---- query (items/score) & memory (load/store) opcodes ----------------

#[test]
fn get_item_reads_the_items_plane() {
    // Pre-place an item at (2,1); GET_ITEM(2,1) -> 1, used as x for set_wall(1,0).
    let mut host = TestHost::new(4, 4);
    host.items[4 + 2] = true; // (2,1) in a 4-wide grid
    let script = [
        0x10, 0x02, 0x10, 0x01, // push 2,1
        0x42, //                   get_item(2,1) -> 1
        0x10, 0x00, //             push 0 (y)
        0x31, //                   set_wall(1,0)
        0x01,
    ];
    assert_eq!(run_on(&mut host, &script), Halt::Halt);
    assert!(host.get_wall(1, 0), "GET_ITEM of a set tile yields 1");
    // An empty tile reads 0: get_item(3,3)=0; +5 -> 5; set_wall(5,0). If the
    // read were 1 it would land on column 6 instead.
    let mut host2 = TestHost::new(8, 1);
    let script2 = [
        0x10, 0x03, 0x10, 0x03, // push 3,3
        0x42, //                   get_item(3,3) -> 0
        0x10, 0x05, 0x20, //       push 5; add -> 5
        0x10, 0x00, 0x31, //       push 0; set_wall(5,0)
        0x01,
    ];
    assert_eq!(run_on(&mut host2, &script2), Halt::Halt);
    assert!(host2.get_wall(5, 0), "GET_ITEM of an empty tile yields 0 (0+5=5)");
    assert!(!host2.get_wall(6, 0), "not 1 (would be 1+5=6)");
}

#[test]
fn get_item_out_of_bounds_is_safe() {
    // GET_ITEM(1000,1000) on a 2x2 grid must not panic and reads 0.
    let mut host = TestHost::new(2, 2);
    let script = [0x11, 0xE8, 0x03, 0x11, 0xE8, 0x03, 0x42, 0x12, 0x01];
    assert_eq!(run_on(&mut host, &script), Halt::Halt);
}

#[test]
fn score_pushes_the_hosts_score() {
    // SCORE -> 2; use it as column x for set_wall(2,0).
    let mut host = TestHost::new(4, 4);
    host.score = 2;
    let script = [0x43, 0x10, 0x00, 0x31, 0x01]; // score, push 0, set_wall(2,0)
    assert_eq!(run_on(&mut host, &script), Halt::Halt);
    assert!(host.get_wall(2, 0), "SCORE pushes the current score");
}

#[test]
fn get_hazard_reads_the_hazards_plane() {
    // Pre-place a hazard at (2,1); GET_HAZARD(2,1) -> 1, used as x for
    // set_wall(1,0). Mirrors the GET_ITEM/GET_WALL test pattern.
    let mut host = TestHost::new(4, 4);
    host.hazards[4 + 2] = true; // (2,1) in a 4-wide grid
    let script = [
        0x10, 0x02, 0x10, 0x01, // push 2,1
        0x44, //                   get_hazard(2,1) -> 1
        0x10, 0x00, //             push 0 (y)
        0x31, //                   set_wall(1,0)
        0x01,
    ];
    assert_eq!(run_on(&mut host, &script), Halt::Halt);
    assert!(host.get_wall(1, 0), "GET_HAZARD of a set tile yields 1");

    // An empty tile reads 0, and out-of-bounds is a safe 0 (no panic).
    let mut host2 = TestHost::new(2, 2);
    let script2 = [0x11, 0xE8, 0x03, 0x11, 0xE8, 0x03, 0x44, 0x12, 0x01]; // get_hazard(1000,1000); pop
    assert_eq!(run_on(&mut host2, &script2), Halt::Halt);
}

#[test]
fn store_then_load_roundtrips_through_ram() {
    // store 7 at addr 42; load addr 42 -> 7; use as x for set_wall(7,0).
    let mut host = TestHost::new(8, 1);
    let script = [
        0x10, 0x07, 0x10, 0x2A, 0x71, // push 7; push 42; store  (ram[42]=7)
        0x10, 0x2A, 0x70, //             push 42; load   -> 7
        0x10, 0x00, 0x31, //             push 0; set_wall(7,0)
        0x01,
    ];
    assert_eq!(run_on(&mut host, &script), Halt::Halt);
    assert!(host.get_wall(7, 0), "value stored then loaded round-trips via RAM");
}

#[test]
fn load_from_unwritten_ram_is_zero_and_address_wraps() {
    // Unwritten RAM reads 0. Also, addr 0x1_2A wraps to 0x2A, so a store to
    // 0x12A then a load from 0x2A returns the value (address wrap proof).
    let mut host = TestHost::new(4, 1);
    // load addr 5 (never written) -> 0; set_wall(0,0) leaves it clear.
    assert_eq!(run_on(&mut host, &[0x10, 0x05, 0x70, 0x12, 0x01]), Halt::Halt);
    assert!(!host.get_wall(0, 0));
    // push 3; push16 0x012A; store -> ram[0x2A]=3; push 0x2A; load -> 3.
    let script = [
        0x10, 0x03, 0x11, 0x2A, 0x01, 0x71, // store 3 at 0x012A -> ram[0x2A]
        0x10, 0x2A, 0x70, //                   load 0x2A -> 3
        0x10, 0x00, 0x31, 0x01, //             set_wall(3,0)
    ];
    assert_eq!(run_on(&mut host, &script), Halt::Halt);
    assert!(host.get_wall(3, 0), "STORE/LOAD address wraps into 0..=255");
}

#[test]
fn store_underflow_halts_cleanly() {
    let mut host = TestHost::new(1, 1);
    assert_eq!(run_on(&mut host, &[0x71]), Halt::StackUnderflow); // STORE, empty
    assert_eq!(run_on(&mut host, &[0x70]), Halt::StackUnderflow); // LOAD, empty
}

#[test]
fn door_example_bytes_clear_the_wall() {
    // The door script: push X; push Y; clr_wall; halt = 10 04 10 03 32 01.
    let mut host = TestHost::new(8, 8);
    host.set_wall(4, 3, true);
    assert_eq!(run_on(&mut host, &[0x10, 0x04, 0x10, 0x03, 0x32, 0x01]), Halt::Halt);
    assert!(!host.get_wall(4, 3), "the door bit is cleared");
}
