//! Assembler diagnostics, number syntax and jump resolution, exactly.

use bitmaze::assembler::{assemble, AsmError};
use bitmaze::vm::{Halt, Vm, VmHost};

fn error(src: &str) -> (usize, String) {
    let e = assemble(src).unwrap_err();
    (e.line, e.msg)
}

#[test]
fn every_diagnostic_names_its_line_and_cause() {
    assert_eq!(error("push 1\n frobnicate\n"), (2, "unknown mnemonic 'frobnicate'".to_string()));
    assert_eq!(error("jmp nowhere\n"), (1, "undefined label 'nowhere'".to_string()));
    assert_eq!(error("a:\n nop\na:\n"), (3, "duplicate label 'a'".to_string()));
    assert_eq!(error("push notanumber\n"), (1, "bad number 'notanumber'".to_string()));
    assert_eq!(error("push\n"), (1, "'push' needs a number".to_string()));
    assert_eq!(error("push16\n"), (1, "'push' needs a number".to_string()));
    assert_eq!(error("push 70000\n"), (1, "number 70000 does not fit in u16 (max 65535)".to_string()));
    assert_eq!(error("halt 5\n"), (1, "'halt' takes no operand (got '5')".to_string()));
    assert_eq!(error("push8 300\n"), (1, "push8 operand 300 does not fit in a byte".to_string()));
    assert_eq!(error("PUSH 1 2\n"), (1, "unexpected extra tokens after 'push'".to_string()));
    assert_eq!(error("::"), (1, "invalid label name ':'".to_string()));
    assert_eq!(error("\n\n :"), (3, "invalid label name ''".to_string()));
    assert_eq!(error("9lives:"), (1, "invalid label name '9lives'".to_string()));
    assert_eq!(error("1abc"), (1, "unknown mnemonic '1abc'".to_string()));
    assert_eq!(error("JZ"), (1, "'jz' needs a label".to_string()));
    assert_eq!(error("push 0xZZ"), (1, "bad number '0xZZ'".to_string()));
}

#[test]
fn pass_one_errors_come_before_unresolved_labels() {
    // The undefined label is on line 1, but pass 1 fails first on line 2.
    assert_eq!(error("jmp nowhere\nbogus\n"), (2, "unknown mnemonic 'bogus'".to_string()));
}

#[test]
fn out_of_range_jump_reports_the_signed_distance() {
    let mut src = String::from("top:\n");
    for _ in 0..200 {
        src.push_str(" nop\n");
    }
    src.push_str(" jmp top\n");
    assert_eq!(error(&src), (202, "jump to 'top' is -202 bytes, out of i8 range".to_string()));
    // Forward: 127 NOPs after a 2-byte jump put the label at +127, the most
    // an i8 reaches; one more NOP is out of range.
    let mut src = String::from("jmp far\n");
    for _ in 0..127 {
        src.push_str("nop\n");
    }
    src.push_str("far:\n");
    let code = assemble(&src).unwrap();
    assert_eq!(code[0..2], [0x60, 127]);
    let mut src = String::from("jmp far\n");
    for _ in 0..128 {
        src.push_str("nop\n");
    }
    src.push_str("far:\n");
    assert_eq!(error(&src), (1, "jump to 'far' is 128 bytes, out of i8 range".to_string()));
}

#[test]
fn error_message_names_the_line() {
    let e = AsmError { line: 7, msg: "unknown mnemonic 'x'".to_string() };
    assert_eq!(e.message(), "line 7: unknown mnemonic 'x'");
}

#[test]
fn numbers_follow_unsigned_integer_syntax() {
    assert_eq!(assemble("push +5").unwrap(), vec![0x10, 5]);
    assert_eq!(assemble("push 0X1F").unwrap(), vec![0x10, 0x1F]);
    assert_eq!(assemble("push 0x+1F").unwrap(), vec![0x10, 0x1F]);
    assert_eq!(assemble("push 00012").unwrap(), vec![0x10, 12]);
    assert_eq!(assemble("push 65535").unwrap(), vec![0x11, 0xFF, 0xFF]);
    assert_eq!(assemble("push16 0x0102").unwrap(), vec![0x11, 0x02, 0x01]);
    assert_eq!(
        error("push 4294967295"),
        (1, "number 4294967295 does not fit in u16 (max 65535)".to_string())
    );
    assert_eq!(error("push 4294967296"), (1, "bad number '4294967296'".to_string()));
    assert_eq!(error("push -1"), (1, "bad number '-1'".to_string()));
    assert_eq!(error("push +"), (1, "bad number '+'".to_string()));
    assert_eq!(error("push 0x"), (1, "bad number '0x'".to_string()));
}

#[test]
fn whitespace_comments_and_case() {
    assert_eq!(assemble("").unwrap(), Vec::<u8>::new());
    assert_eq!(assemble("; only a comment\n\n   \n").unwrap(), Vec::<u8>::new());
    assert_eq!(assemble("push\t5\r\nHaLt ; done\r\n").unwrap(), vec![0x10, 5, 0x01]);
    assert_eq!(assemble("\u{3000}nop\u{a0}\n").unwrap(), vec![0x00]);
    assert_eq!(assemble("Top:\n jmp TOP\n").unwrap(), vec![0x60, 0xFE]);
    assert_eq!(assemble("  spaced  :\n jz SPACED\n").unwrap(), vec![0x61, 0xFE]);
}

struct Grid {
    walls: Vec<bool>,
}

impl VmHost for Grid {
    fn get_wall(&self, x: u16, _y: u16) -> bool {
        *self.walls.get(x as usize).unwrap_or(&false)
    }
    fn set_wall(&mut self, x: u16, _y: u16, v: bool) {
        if let Some(slot) = self.walls.get_mut(x as usize) {
            *slot = v;
        }
    }
    fn player_x(&self) -> u16 {
        0
    }
    fn player_y(&self) -> u16 {
        0
    }
    fn get_item(&self, _x: u16, _y: u16) -> bool {
        false
    }
    fn score(&self) -> u16 {
        0
    }
    fn get_hazard(&self, _x: u16, _y: u16) -> bool {
        false
    }
}

#[test]
fn assembled_jumps_land_on_their_labels() {
    // back: two NOPs, then a jump to `top` at offset 0: 0 - (2 + 2) = -4.
    let code = assemble("top:\n nop\n nop\n jmp top\n").unwrap();
    assert_eq!(code, vec![0x00, 0x00, 0x60, 0xFC]);
    // forward: jz at 0 over a 3-byte push to `end` at 5: 5 - 2 = +3.
    let code = assemble("push 0\n jz end\n push16 9\nend:\n push 1\n push 0\n set_wall\n").unwrap();
    assert_eq!(code[2..4], [0x61, 0x03]);
    // Running it takes the jump, so the wall at column 1 is set.
    let mut grid = Grid { walls: vec![false; 4] };
    assert_eq!(Vm::new(1).run(&code, &mut grid), Halt::EndOfScript);
    assert!(grid.walls[1]);
}

#[test]
fn every_error_names_a_line_of_the_source() {
    let cases = [
        "push notanumber\n", "push\n", "push 70000\n", "halt 5\n", "push8 300\n", "push 1 2\n",
        "::", "1abc", ":", "jmp", "0x", "push 0xZZ", "nop\n\nnop\n  jmp nowhere\n",
        "a:\na:\n", "\n\n\nbogus\n",
    ];
    for src in cases {
        let e = assemble(src).expect_err(src);
        assert!(1 <= e.line && e.line <= src.lines().count(), "{src:?} -> line {}", e.line);
    }
    assert_eq!(assemble("nop\n\nnop\n  jmp nowhere\n").unwrap_err().line, 4);
    assert_eq!(assemble("\n\n\nbogus\n").unwrap_err().line, 4);
}
