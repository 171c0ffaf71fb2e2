//! Sprites, palette and the framebuffer: item and hazard compositing, the PPM
//! bytes, sprite messages and the per-file sprite fallback.

use bitmaze::check::summary;
use bitmaze::dump::render;
use bitmaze::format::{plane_len, Level};
use bitmaze::framebuffer::{draw, fb_height, fb_width, to_ppm};
use bitmaze::sprite::{bits_len, load_one, Palette, Sprite, SpriteError, Sprites};
use bitmaze::world::World;

/// A 3x1 floor: spawn at (0,0), an item at (1,0), a hazard at (2,0).
fn item_and_hazard_world() -> World {
    let mut level = Level::blank(3, 1);
    level.planes.push(vec![0u8; plane_len(3, 1)]);
    level.planes.push(vec![0u8; plane_len(3, 1)]);
    level.set_bit(1, 1, 0, true);
    level.set_bit(2, 2, 0, true);
    World::new(level).unwrap()
}

#[test]
fn items_and_hazards_composite_over_the_floor() {
    let world = item_and_hazard_world();
    let sprites = Sprites::default();
    let pal = Palette::default();
    let tile_px = 8;
    let (w, h) = (fb_width(&world, tile_px), fb_height(&world, tile_px));
    assert_eq!((w, h), (24, 8));
    let mut fb = vec![0xDEAD_BEEFu32; w * h];
    draw(&world, &mut fb, w, h, tile_px, &sprites, &pal);
    let at = |tx: usize, sx: usize, sy: usize| fb[sy * w + tx * tile_px + sx];
    // The gem's ink is item ink; its paper shows the floor.
    assert!(sprites.item.get(3, 1));
    assert_eq!(at(1, 3, 1), pal.item_ink);
    assert!(!sprites.item.get(0, 0));
    assert_eq!(at(1, 0, 0), pal.floor_paper);
    // The spikes' ink is hazard ink; their paper shows the floor.
    assert!(sprites.hazard.get(0, 6));
    assert_eq!(at(2, 0, 6), pal.hazard_ink);
    assert_eq!(at(2, 0, 0), pal.floor_paper);
    // The player stands on (0,0).
    assert_eq!(at(0, 2, 0), pal.player_ink);
}

#[test]
fn a_short_buffer_is_clipped_and_an_oversized_one_keeps_its_margin() {
    let world = item_and_hazard_world();
    let sprites = Sprites::default();
    let pal = Palette::default();
    // Half a buffer: only what fits is painted, nothing panics.
    let mut short = vec![7u32; 24 * 4];
    draw(&world, &mut short, 24, 8, 8, &sprites, &pal);
    assert_eq!(short[0], pal.floor_paper);
    // A buffer wider than the level: the margin is left as it was.
    let mut wide = vec![7u32; 30 * 8];
    draw(&world, &mut wide, 30, 8, 8, &sprites, &pal);
    assert_eq!(wide[25], 7);
    assert_eq!(wide[30 * 7 + 29], 7);
    assert_eq!(wide[0], pal.floor_paper);
}

#[test]
fn ppm_bytes_are_header_then_rgb_triples() {
    let fb = [0x0011_2233u32, 0x00AA_BBCC];
    let mut expected = b"P6\n2 1\n255\n".to_vec();
    expected.extend_from_slice(&[0x11, 0x22, 0x33, 0xAA, 0xBB, 0xCC]);
    assert_eq!(to_ppm(&fb, 2, 1), expected);
    // A buffer shorter than w*h stops at its end.
    assert_eq!(to_ppm(&fb[..1], 2, 1), b"P6\n2 1\n255\n\x11\x22\x33".to_vec());
    // Length law: header plus three bytes per pixel.
    let big = vec![0u32; 12 * 5];
    assert_eq!(to_ppm(&big, 12, 5).len(), "P6\n12 5\n255\n".len() + 12 * 5 * 3);
}

#[test]
fn default_palette_and_sprites() {
    let pal = Palette::default();
    assert_eq!(pal.wall_ink, 0x0025_2B48);
    assert_eq!(pal.wall_paper, 0x0012_1628);
    assert_eq!(pal.floor_ink, 0x0016_1622);
    assert_eq!(pal.floor_paper, 0x000A_0A0F);
    assert_eq!(pal.item_ink, 0x0000_E5FF);
    assert_eq!(pal.hazard_ink, 0x00FF_3B30);
    assert_eq!(pal.player_ink, 0x00FF_B300);
    let s = Sprites::default();
    assert_eq!(s.wall, Sprite::default_wall());
    assert_eq!(s.floor, Sprite::default_floor());
    assert_eq!(s.item, Sprite::default_item());
    assert_eq!(s.hazard, Sprite::default_hazard());
    assert_eq!(s.player, Sprite::default_player());
    assert_eq!(Sprite::default_floor().bits, vec![0, 0, 0, 0x18, 0x18, 0, 0, 0]);
}

#[test]
fn narrow_rows_pack_pixel_by_pixel() {
    // 3 pixels wide: only the top three bits of each row byte count.
    let s = Sprite::from_rows(3, &[0b1011_1111, 0b0100_0000]);
    assert_eq!((s.width, s.height), (3, 2));
    assert_eq!(s.bits, vec![0b1010_1000]);
    assert_eq!(s.to_ascii(), "#.#\n.#.\n");
    assert_eq!(bits_len(3, 2), 1);
    assert_eq!(bits_len(5, 5), 4);
    // Setting then clearing a pixel reads back, and leaves the others.
    let mut t = Sprite::blank(5, 5);
    t.set(4, 4, true);
    assert!(t.get(4, 4) && !t.get(3, 4));
    t.set(4, 4, false);
    assert_eq!(t, Sprite::blank(5, 5));
    assert!(!t.get(9, 9));
}

#[test]
fn sprite_error_messages() {
    assert_eq!(
        SpriteError::ShortHeader(2).message(),
        "sprite too short: 2 bytes, need at least 5 for the header"
    );
    assert_eq!(
        SpriteError::BadMagic([0x50, 0x53]).message(),
        "bad sprite magic 0x50 0x53: this looks like byte-swapped \"PS\" \u{2014} the format is little-endian, expected \"SP\" (0x53 0x50)"
    );
    assert_eq!(
        SpriteError::BadMagic([0x00, 0x01]).message(),
        "bad sprite magic 0x00 0x01: not a bit-maze sprite (expected \"SP\" 0x53 0x50)"
    );
    assert_eq!(
        SpriteError::UnknownVersion(2).message(),
        "unknown sprite version 2: this build only understands version 1"
    );
    assert_eq!(
        SpriteError::BadDimension { width: 0, height: 8 }.message(),
        "sprite dimensions 0x8 out of range: width and height must be 1..=255"
    );
    assert_eq!(
        SpriteError::WrongLength { needed: 8, had: 7 }.message(),
        "sprite pixel data is 7 byte(s), header implies exactly 8"
    );
}

#[test]
fn one_sprite_falls_back_with_a_note() {
    let mut notes = Vec::new();
    let s = load_one("sprites/wall.spr", None, Sprite::default_wall(), &mut notes);
    assert_eq!(s, Sprite::default_wall());
    assert_eq!(notes, vec!["sprites/wall.spr: not found \u{2014} using built-in default".to_string()]);

    let bad = [0x53u8, 0x50];
    let s = load_one("sprites/floor.spr", Some(&bad), Sprite::default_floor(), &mut notes);
    assert_eq!(s, Sprite::default_floor());
    assert_eq!(
        notes[1],
        "sprites/floor.spr: sprite too short: 2 bytes, need at least 5 for the header \u{2014} using built-in default"
    );

    let good = Sprite::default_item().to_bytes();
    let s = load_one("sprites/player.spr", Some(&good), Sprite::default_player(), &mut notes);
    assert_eq!(s, Sprite::default_item());
    assert_eq!(notes.len(), 2);
}

#[test]
fn from_rows_beyond_255_rows_wraps_onto_the_u8_height() {
    let mut rows = vec![0u8; 300];
    rows[256] = 0b1000_0000; // row 256 lands on row 0
    rows[1] = 0b1000_0000;
    let s = Sprite::from_rows(1, &rows);
    assert_eq!((s.width, s.height), (1, 44));
    assert_eq!(s.bits.len(), bits_len(1, 44));
    assert!(s.get(0, 0));
    assert!(s.get(0, 1));
    assert!(!s.get(0, 2));
    assert!(!s.get(0, 43));
}

#[test]
fn to_ascii_reads_only_the_pixels_it_needs() {
    // Two pixels need one byte; a longer bit buffer is fine.
    let s = Sprite { width: 2, height: 1, bits: vec![0b1000_0000, 0xFF] };
    assert_eq!(s.to_ascii(), "#.\n");
}

#[test]
fn dump_and_summary_of_levels_outside_the_format() {
    let empty = Level { width: 2, height: 1, planes: vec![], triggers: None, scripts: None };
    assert_eq!(render(&empty), "level: 2x1 tiles, 0 plane(s), flags=0x00\n");
    let flat = Level { width: 0, height: 3, planes: vec![vec![]], triggers: Some(vec![]), scripts: None };
    assert_eq!(
        render(&flat),
        "level: 0x3 tiles, 1 plane(s), flags=0x01\n\nplane 0 (WALLS)  '#' = set, '.' = clear:\n\n\n\n\ntrigger plane (hex script id per tile, 00 = none):\n\n\n\n"
    );
    assert!(summary(&empty).contains("  planes     : 0 x 1 bytes each\n"));
}
