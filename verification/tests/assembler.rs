//! The assembler: encodings, labels and jump offsets, assembled programs run
//! on the VM, and every error with its source line.
use bitmaze::assembler::assemble;
use bitmaze::vm::{Halt, Vm, VmHost};

/// Every operand-less mnemonic and its opcode byte.
const SIMPLE: &[(&str, u8)] = &[
    ("nop", 0x00),
    ("halt", 0x01),
    ("pop", 0x12),
    ("dup", 0x13),
    ("add", 0x20),
    ("sub", 0x21),
    ("get_wall", 0x30),
    ("set_wall", 0x31),
    ("clr_wall", 0x32),
    ("player_x", 0x40),
    ("player_y", 0x41),
    ("get_item", 0x42),
    ("score", 0x43),
    ("get_hazard", 0x44),
    ("rand", 0x50),
    ("load", 0x70),
    ("store", 0x71),
];

fn build(src: &str) -> Vec<u8> {
    assemble(src).expect("assembles cleanly")
}

#[test]
fn door_roundtrip_exact_bytes() {
    // The door example assembles to the door script: 10 04 10 03 32 01.
    let src = "\
; pressure plate: open the door at (4,3)
on_enter:
    push 4
    push 3
    clr_wall
    halt
";
    assert_eq!(build(src), vec![0x10, 0x04, 0x10, 0x03, 0x32, 0x01]);
}

#[test]
fn every_operandless_mnemonic_maps_to_its_byte() {
    for &(mnem, byte) in SIMPLE {
        assert_eq!(build(mnem), vec![byte], "{mnem}");
        // Case-insensitive.
        assert_eq!(build(&mnem.to_uppercase()), vec![byte], "{mnem} upper");
    }
}

#[test]
fn push_picks_push8_vs_push16_by_magnitude() {
    assert_eq!(build("push 0"), vec![0x10, 0x00]);
    assert_eq!(build("push 255"), vec![0x10, 0xFF]);
    assert_eq!(build("push 256"), vec![0x11, 0x00, 0x01]); // LE
    assert_eq!(build("push 0x1234"), vec![0x11, 0x34, 0x12]);
    assert_eq!(build("push 0xFF"), vec![0x10, 0xFF]); // hex under 256 -> PUSH8
}

#[test]
fn explicit_push_widths() {
    assert_eq!(build("push8 7"), vec![0x10, 0x07]);
    assert_eq!(build("push16 7"), vec![0x11, 0x07, 0x00]); // forced 16-bit
}

#[test]
fn hex_and_decimal_operands_agree() {
    assert_eq!(build("push 16"), build("push 0x10"));
}

#[test]
fn comments_and_blank_lines_ignored() {
    let src = "\
; a comment

    push 1  ; trailing comment
halt
";
    assert_eq!(build(src), vec![0x10, 0x01, 0x01]);
}

#[test]
fn backward_jump_offset_is_correct() {
    // loop: nop; jmp loop  -> 00 60 FD. The jmp is at byte 1; base = 3;
    // target = 0; rel = 0 - 3 = -3 = 0xFD.
    assert_eq!(build("loop:\n nop\n jmp loop\n"), vec![0x00, 0x60, 0xFD]);
    // The canonical self-loop: jmp onto itself is -2 (0xFE).
    assert_eq!(build("self:\n jmp self\n"), vec![0x60, 0xFE]);
}

#[test]
fn forward_jump_offset_is_correct() {
    // jz end; nop; end: halt -> 61 01 00 01. jz at 0, base = 2, target = 3,
    // rel = +1 = 0x01.
    assert_eq!(build("jz end\n nop\nend:\n halt\n"), vec![0x61, 0x01, 0x00, 0x01]);
}

// A minimal host so an assembled loop can actually be executed.
struct Host {
    walls: Vec<bool>,
}
impl VmHost for Host {
    fn get_wall(&self, x: u16, _y: u16) -> bool {
        *self.walls.get(x as usize).unwrap_or(&false)
    }
    fn set_wall(&mut self, x: u16, _y: u16, v: bool) {
        if let Some(slot) = self.walls.get_mut(x as usize) {
            *slot = v;
        }
    }
    fn player_x(&self) -> u16 {
        0
    }
    fn player_y(&self) -> u16 {
        0
    }
    fn get_item(&self, _x: u16, _y: u16) -> bool {
        false
    }
    fn score(&self) -> u16 {
        0
    }
    fn get_hazard(&self, _x: u16, _y: u16) -> bool {
        false
    }
}

#[test]
fn assembled_countdown_loop_runs_and_terminates() {
    // Countdown: start at 3, decrement to 0, then halt. Proves labels +
    // jz/jmp assemble into bytecode the VM executes to a clean stop.
    //   push 3
    // top:
    //   push 1
    //   sub          ; n = n - 1
    //   dup
    //   jz done      ; if n == 0, exit
    //   jmp top
    // done:
    //   halt
    let bytes = build("\
    push 3
top:
    push 1
    sub
    dup
    jz done
    jmp top
done:
    halt
");
    let mut host = Host { walls: vec![false; 4] };
    let halt = Vm::new(1).run(&bytes, &mut host);
    assert_eq!(halt, Halt::Halt, "the loop terminates cleanly via HALT");
}

#[test]
fn infinite_assembled_loop_halts_via_budget_not_hang() {
    // jmp self must run to the VM's budget cap, proving no hang.
    let bytes = build("l:\n jmp l\n");
    let mut host = Host { walls: vec![false; 1] };
    assert_eq!(Vm::new(1).run(&bytes, &mut host), Halt::Budget);
}

// ---- error cases: all return errors with line numbers, never panic -----

#[test]
fn unknown_mnemonic_errors_with_line() {
    let e = assemble("push 1\n frobnicate\n").unwrap_err();
    assert_eq!(e.line, 2);
    assert!(e.msg.contains("unknown mnemonic"), "{}", e.msg);
}

#[test]
fn undefined_label_errors() {
    let e = assemble("jmp nowhere\n").unwrap_err();
    assert!(e.msg.contains("undefined label"), "{}", e.msg);
}

#[test]
fn duplicate_label_errors_with_line() {
    let e = assemble("a:\n nop\na:\n").unwrap_err();
    assert_eq!(e.line, 3);
    assert!(e.msg.contains("duplicate label"), "{}", e.msg);
}

#[test]
fn offset_out_of_i8_range_errors() {
    // 200 NOPs then jmp back to the top overflows i8 (< -128).
    let mut src = String::from("top:\n");
    for _ in 0..200 {
        src.push_str(" nop\n");
    }
    src.push_str(" jmp top\n");
    let e = assemble(&src).unwrap_err();
    assert!(e.msg.contains("out of i8 range"), "{}", e.msg);
}

#[test]
fn bad_operands_error() {
    assert!(assemble("push notanumber\n").is_err());
    assert!(assemble("push\n").is_err()); // missing operand
    assert!(assemble("push 70000\n").is_err()); // > u16
    assert!(assemble("halt 5\n").is_err()); // stray operand
    assert!(assemble("push8 300\n").is_err()); // doesn't fit u8
    assert!(assemble("push 1 2\n").is_err()); // extra token
}

#[test]
fn never_panics_on_garbage() {
    // A grab-bag of malformed lines: each returns Err, none panic.
    for bad in ["::", "1abc", ":", "jmp", "0x", "push 0xZZ"] {
        assert!(assemble(bad).is_err(), "{bad:?} should error");
    }
}
