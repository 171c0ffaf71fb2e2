//! The `.spr` sprite format: round-trips, pixel order, the default sprites
//! and every rejection path.
use bitmaze::sprite::{Sprite, SpriteError, SPRITE_MAGIC, SPRITE_VERSION};

#[test]
fn round_trip_preserves_bytes_and_pixels() {
    let s = Sprite::default_player();
    let bytes = s.to_bytes();
    // Header lands where the spec says.
    assert_eq!(&bytes[0..2], &SPRITE_MAGIC);
    assert_eq!(bytes[2], SPRITE_VERSION);
    assert_eq!(bytes[3], 8); // width
    assert_eq!(bytes[4], 8); // height
    let back = Sprite::from_bytes(&bytes).unwrap();
    assert_eq!(s, back);
    assert_eq!(back.to_bytes(), bytes);
}

#[test]
fn pixels_are_msb_first() {
    // Setting the top-left pixel (0,0) sets bit 7 (0x80) of byte 0.
    let mut s = Sprite::blank(8, 1);
    s.set(0, 0, true);
    assert_eq!(s.bits[0], 0x80, "pixel (0,0) must be the MSB of byte 0");

    // Setting (7,0) sets bit 0 (0x01).
    let mut s = Sprite::blank(8, 1);
    s.set(7, 0, true);
    assert_eq!(s.bits[0], 0x01, "pixel (7,0) must be the LSB of byte 0");
}

#[test]
fn from_rows_matches_expected_bits() {
    // The wall's first row is all ink (0xFF), the fourth is all paper.
    let wall = Sprite::default_wall();
    for x in 0..8 {
        assert!(wall.get(x, 0), "wall row 0 is solid brick");
        assert!(!wall.get(x, 3), "wall row 3 is a mortar line");
    }
}

#[test]
fn bad_magic_is_rejected() {
    let mut bad = Sprite::default_wall().to_bytes();
    bad.swap(0, 1); // "PS" instead of "SP"
    match Sprite::from_bytes(&bad) {
        Err(SpriteError::BadMagic(m)) => {
            assert_eq!(m, [SPRITE_MAGIC[1], SPRITE_MAGIC[0]]);
            assert!(SpriteError::BadMagic(m).message().contains("byte-swapped"));
        }
        other => panic!("expected BadMagic, got {other:?}"),
    }
}

#[test]
fn sprite_unknown_version_is_rejected() {
    let mut bad = Sprite::default_wall().to_bytes();
    bad[2] = 2;
    assert!(matches!(Sprite::from_bytes(&bad), Err(SpriteError::UnknownVersion(2))));
}

#[test]
fn sprite_zero_dimension_is_rejected() {
    let mut bad = Sprite::default_wall().to_bytes();
    bad[3] = 0; // width = 0
    assert!(matches!(
        Sprite::from_bytes(&bad),
        Err(SpriteError::BadDimension { width: 0, height: 8 })
    ));
}

#[test]
fn sprite_wrong_length_is_rejected() {
    // One byte short.
    let full = Sprite::default_wall().to_bytes();
    let short = &full[..full.len() - 1];
    assert!(matches!(Sprite::from_bytes(short), Err(SpriteError::WrongLength { .. })));
    // One byte long.
    let mut long = full.clone();
    long.push(0);
    assert!(matches!(Sprite::from_bytes(&long), Err(SpriteError::WrongLength { .. })));
}

#[test]
fn sprite_short_header_is_rejected() {
    assert!(matches!(Sprite::from_bytes(&[0x53, 0x50]), Err(SpriteError::ShortHeader(2))));
}

#[test]
fn ascii_dump_matches_known_pattern() {
    // A tiny 3x2 sprite: ink at (0,0) and (2,1) only.
    let mut s = Sprite::blank(3, 2);
    s.set(0, 0, true);
    s.set(2, 1, true);
    assert_eq!(s.to_ascii(), "#..\n..#\n");
}
