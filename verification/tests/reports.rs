//! The text a level, an error or a halt reads as: `dump`, `check`, and every
//! error message, checked character for character.

use bitmaze::check::summary;
use bitmaze::dump::render;
use bitmaze::format::{BmError, Level, Script};
use bitmaze::newlevel::generate;
use bitmaze::samples;
use bitmaze::vm::Halt;
use bitmaze::world::SpawnError;

/// An 8x8 walls-only maze, as `xxd` shows it.
const FIRST_BM: [u8; 16] = [
    0x42, 0x4d, 0x01, 0x00, 0x08, 0x08, 0x01, 0x00, //
    0xff, 0x81, 0xbd, 0xa5, 0xaf, 0x81, 0xfb, 0xff,
];

#[test]
fn dump_of_a_walls_only_level() {
    let level = Level::from_bytes(&FIRST_BM).unwrap();
    let expected = "level: 8x8 tiles, 1 plane(s), flags=0x00\n\
\nplane 0 (WALLS)  '#' = set, '.' = clear:\n\
########\n#......#\n#.####.#\n#.#..#.#\n#.#.####\n#......#\n#####.##\n########\n";
    assert_eq!(render(&level), expected);
}

#[test]
fn dump_shows_triggers_and_scripts() {
    let mut level = Level::blank(3, 2);
    level.set_bit(0, 0, 0, true);
    level.planes.push(vec![0b0100_0000]); // items plane: (1,0)
    level.planes.push(vec![0b0010_0000]); // hazards plane: (2,0)
    level.planes.push(vec![0]); // a fourth, auxiliary plane
    level.triggers = Some(vec![0, 1, 0, 0, 7, 0]);
    level.scripts = Some(vec![
        Script { id: 1, bytes: vec![0x10, 0x05, 0x01] },
        Script { id: 7, bytes: vec![0x00] },
    ]);
    let expected = "level: 3x2 tiles, 4 plane(s), flags=0x03\n\
\nplane 0 (WALLS)  '#' = set, '.' = clear:\n#..\n...\n\
\nplane 1 (ITEMS)  '#' = set, '.' = clear:\n.#.\n...\n\
\nplane 2 (HAZARDS)  '#' = set, '.' = clear:\n..#\n...\n\
\nplane 3 (aux)  '#' = set, '.' = clear:\n...\n...\n\
\ntrigger plane (hex script id per tile, 00 = none):\n00 01 00\n00 07 00\n\
\nscript table (2 script(s)):\n  id   1: 3 byte(s): 10 05 01\n  id   7: 1 byte(s): 00\n";
    assert_eq!(render(&level), expected);
}

#[test]
fn check_summary_of_a_walls_only_level() {
    let level = Level::from_bytes(&FIRST_BM).unwrap();
    let expected = "OK: valid bit-maze v1 level\n  dimensions : 8x8 (64 tiles)\n  flags      : 0x00\n  planes     : 1 x 8 bytes each\n  triggers   : none\n  scripts    : none\n  total size : 16 bytes";
    assert_eq!(summary(&level), expected);
}

#[test]
fn check_summary_counts_triggers_and_bytecode() {
    let mut level = Level::blank(3, 2);
    level.triggers = Some(vec![0, 1, 0, 0, 7, 0]);
    level.scripts = Some(vec![
        Script { id: 1, bytes: vec![0x10, 0x05, 0x01] },
        Script { id: 7, bytes: vec![0x00] },
    ]);
    let size = level.to_bytes().len();
    let expected = format!(
        "OK: valid bit-maze v1 level\n  dimensions : 3x2 (6 tiles)\n  flags      : 0x03\n  planes     : 1 x 1 bytes each\n  triggers   : present (6 bytes)\n  scripts    : 2 script(s), 4 bytecode byte(s)\n  total size : {size} bytes"
    );
    assert_eq!(size, 8 + 1 + 6 + 1 + (3 + 3) + (3 + 1));
    assert_eq!(summary(&level), expected);
}

#[test]
fn generated_maze_has_border_divider_and_stub() {
    let level = generate(8, 6);
    assert_eq!(level.planes.len(), 1);
    assert!(level.triggers.is_none() && level.scripts.is_none());
    let expected = "level: 8x6 tiles, 1 plane(s), flags=0x00\n\
\nplane 0 (WALLS)  '#' = set, '.' = clear:\n\
########\n#.#....#\n#.#....#\n#.....##\n#.#....#\n########\n";
    assert_eq!(render(&level), expected);
    // It is a valid level: it survives the file format unchanged.
    assert_eq!(Level::from_bytes(&level.to_bytes()).unwrap(), level);
}

#[test]
fn generated_small_level_is_only_a_border() {
    let level = generate(4, 3);
    assert!(level.get_bit(0, 0, 0) && level.get_bit(0, 3, 2));
    assert!(!level.get_bit(0, 1, 1) && !level.get_bit(0, 2, 1));
    assert_eq!(level.planes[0], vec![0b1111_1001, 0b1111_0000]);
}

#[test]
fn format_error_messages() {
    assert_eq!(
        BmError::ShortHeader(2).message(),
        "file too short: 2 bytes, need at least 8 for the header"
    );
    assert_eq!(
        BmError::BadMagic([0x4d, 0x42]).message(),
        "bad magic 0x4d 0x42: this looks like byte-swapped \"MB\" \u{2014} the format is little-endian, expected \"BM\" (0x42 0x4d)"
    );
    assert_eq!(
        BmError::BadMagic([0x00, 0xff]).message(),
        "bad magic 0x00 0xff: not a bit-maze file (expected \"BM\" 0x42 0x4d)"
    );
    assert_eq!(
        BmError::UnknownVersion(2).message(),
        "unknown format version 2: this build only understands version 1"
    );
    assert_eq!(
        BmError::BadReserved(0x99).message(),
        "reserved header byte must be 0 in v1, found 0x99"
    );
    assert_eq!(
        BmError::ReservedFlags(0x04).message(),
        "reserved flag bits must be 0 in v1, found flags 0x04 (only bit0 = triggers and bit1 = scripts are defined)"
    );
    assert_eq!(
        BmError::BadDimension { width: 0, height: 8 }.message(),
        "dimensions 0x8 out of range: width and height must be 1..=255"
    );
    assert_eq!(BmError::NoPlanes.message(), "planes=0: a level needs at least the walls plane");
    assert_eq!(
        BmError::Truncated { needed: 1, had: 0, what: "a bitplane" }.message(),
        "truncated file: needed 1 bytes for a bitplane, only 0 remain"
    );
    assert_eq!(
        BmError::TruncatedScript { id: 5 }.message(),
        "truncated script table: script id 5 declares more bytes than remain in the file"
    );
    assert_eq!(
        BmError::TrailingBytes { extra: 1 }.message(),
        "1 trailing byte(s) after a complete level: file is longer than its declared contents"
    );
    let io = BmError::from(std::io::Error::new(std::io::ErrorKind::NotFound, "no such level"));
    assert_eq!(io.message(), "I/O error: no such level");
}

#[test]
fn every_loader_error_comes_from_its_input() {
    // No planes declared.
    let bytes = [0x42, 0x4d, 0x01, 0x00, 0x01, 0x01, 0x00, 0x00];
    assert!(matches!(Level::from_bytes(&bytes), Err(BmError::NoPlanes)));
    // A missing trigger plane is truncated.
    let bytes = [0x42, 0x4d, 0x01, 0x01, 0x01, 0x01, 0x01, 0x00, 0x00];
    match Level::from_bytes(&bytes) {
        Err(BmError::Truncated { needed, had, what }) => {
            assert_eq!((needed, had), (1, 0));
            assert_eq!(what, "the trigger plane");
        }
        other => panic!("expected Truncated, got {other:?}"),
    }
}

#[test]
fn halt_and_spawn_messages() {
    assert_eq!(Halt::Halt.message(), "HALT");
    assert_eq!(Halt::EndOfScript.message(), "ran off end of script");
    assert_eq!(Halt::Truncated.message(), "truncated operand");
    assert_eq!(Halt::BadJump.message(), "jump target out of bounds");
    assert_eq!(Halt::BadOpcode(0xEE).message(), "bad opcode 0xee");
    assert_eq!(Halt::StackOverflow.message(), "stack overflow (depth > 64)");
    assert_eq!(Halt::StackUnderflow.message(), "stack underflow");
    assert_eq!(Halt::Budget.message(), "instruction budget exceeded (4096)");
    assert!(Halt::Halt.is_clean() && Halt::EndOfScript.is_clean());
    assert!(!Halt::Budget.is_clean() && !Halt::BadOpcode(0).is_clean());
    assert_eq!(
        SpawnError::AllWalls.message(),
        "level is entirely walls: no floor tile to spawn the player on"
    );
}

#[test]
fn reserved_flag_bits_are_rejected() {
    for flags in [0x04u8, 0x08, 0x80, 0xFF, 0x07] {
        let mut bad = FIRST_BM;
        bad[3] = flags;
        assert!(
            matches!(Level::from_bytes(&bad), Err(BmError::ReservedFlags(f)) if f == flags),
            "flags {flags:#04x} must be refused"
        );
    }
}

#[test]
fn accepted_files_rewrite_byte_identical() {
    let level = Level::from_bytes(&FIRST_BM).unwrap();
    assert_eq!(level.to_bytes(), FIRST_BM.to_vec());
    for (_, sample) in samples::all() {
        let bytes = sample.to_bytes();
        assert_eq!(Level::from_bytes(&bytes).unwrap().to_bytes(), bytes);
    }
}

#[test]
fn dump_of_the_trial_level_names_the_hazards_plane() {
    let text = render(&samples::trial());
    assert!(text.starts_with("level: 8x6 tiles, 3 plane(s), flags=0x03\n"), "{text}");
    assert!(text.contains("plane 0 (WALLS)"));
    assert!(text.contains("plane 1 (ITEMS)"));
    assert!(text.contains("plane 2 (HAZARDS)  '#' = set, '.' = clear:"));
}
