//! Headless rendering: buffer geometry, sprite blits through the palette,
//! full coverage under scaling, and the PPM encoding.
use bitmaze::format::Level;
use bitmaze::framebuffer::{draw, fb_height, fb_width, to_ppm};
use bitmaze::sprite::{Palette, Sprite, Sprites};
use bitmaze::world::World;

/// A 3x2 level: top row all walls, bottom row all floor. Player spawns on
/// the first floor tile in row-major order — that is (0,1).
fn sample_world() -> World {
    let mut level = Level::blank(3, 2);
    for x in 0..3 {
        level.set_bit(0, x, 0, true); // top row = walls
    }
    World::new(level).expect("has floor tiles")
}

#[test]
fn buffer_dimensions_match_tiles_times_tile_px() {
    let world = sample_world();
    let tile_px = 8;
    assert_eq!(fb_width(&world, tile_px), 3 * 8);
    assert_eq!(fb_height(&world, tile_px), 2 * 8);
}

#[test]
fn draw_blits_sprites_through_the_palette() {
    let world = sample_world();
    assert_eq!((world.px, world.py), (0, 1)); // sanity: spawn on first floor

    let sprites = Sprites::default();
    let pal = Palette::default();
    // tile_px == sprite dimension so sampling is 1:1 (dx -> sx directly).
    let tile_px = 8;
    let fb_w = fb_width(&world, tile_px);
    let fb_h = fb_height(&world, tile_px);
    let mut fb = vec![0u32; fb_w * fb_h];

    draw(&world, &mut fb, fb_w, fb_h, tile_px, &sprites, &pal);

    // Sample the pixel at sprite-local (sx, sy) inside tile (tx, ty).
    let px_at = |tx: usize, ty: usize, sx: usize, sy: usize| {
        let px = tx * tile_px + sx;
        let py = ty * tile_px + sy;
        fb[py * fb_w + px]
    };

    // Wall tile (0,0): the wall sprite's top-left pixel is ink (row0=0xFF),
    // and its row-3 pixel is paper (mortar line, all 0).
    assert_eq!(px_at(0, 0, 0, 0), pal.wall_ink, "wall ink pixel");
    assert_eq!(px_at(0, 0, 0, 3), pal.wall_paper, "wall paper (mortar) pixel");

    // Plain floor tile (1,1): center dot is ink, corner is paper.
    // Floor sprite has ink at (3,3)/(4,3)/(3,4)/(4,4) only.
    assert_eq!(px_at(1, 1, 3, 3), pal.floor_ink, "floor dot ink pixel");
    assert_eq!(px_at(1, 1, 0, 0), pal.floor_paper, "floor paper pixel");

    // Player tile (0,1): the player sprite's ink shows player_ink; where the
    // player sprite is paper (transparent), the floor beneath shows through.
    // Player sprite (0,0) is paper -> floor paper shows. Player (2,0) is ink.
    assert!(Sprite::default_player().get(2, 0), "sanity: player (2,0) is ink");
    assert_eq!(px_at(0, 1, 2, 0), pal.player_ink, "player ink pixel");
    assert!(!Sprite::default_player().get(0, 0), "sanity: player (0,0) is paper");
    assert_eq!(px_at(0, 1, 0, 0), pal.floor_paper, "floor shows through player paper");
}

#[test]
fn ppm_header_and_length_are_correct() {
    let world = sample_world();
    let sprites = Sprites::default();
    let pal = Palette::default();
    let tile_px = 8;
    let fb_w = fb_width(&world, tile_px); // 3*8 = 24
    let fb_h = fb_height(&world, tile_px); // 2*8 = 16
    let mut fb = vec![0u32; fb_w * fb_h];
    draw(&world, &mut fb, fb_w, fb_h, tile_px, &sprites, &pal);

    let ppm = to_ppm(&fb, fb_w, fb_h);
    let header = format!("P6\n{fb_w} {fb_h}\n255\n");
    assert!(ppm.starts_with(header.as_bytes()), "P6 header present with dims");
    // Exactly header + w*h*3 body bytes.
    assert_eq!(ppm.len(), header.len() + fb_w * fb_h * 3);

    // The first body pixel is tile (0,0)'s top-left = wall ink; check its RGB
    // triple matches the palette color, proving real render bytes are written.
    let body = &ppm[header.len()..];
    let ink = pal.wall_ink;
    assert_eq!(body[0], ((ink >> 16) & 0xFF) as u8);
    assert_eq!(body[1], ((ink >> 8) & 0xFF) as u8);
    assert_eq!(body[2], (ink & 0xFF) as u8);
}

#[test]
fn every_pixel_is_painted_and_scaling_covers_the_tile() {
    // A non-8 tile_px exercises nearest-neighbor scaling and full coverage.
    let world = sample_world();
    let sprites = Sprites::default();
    let pal = Palette::default();
    let tile_px = 5;
    let fb_w = fb_width(&world, tile_px);
    let fb_h = fb_height(&world, tile_px);
    let mut fb = vec![0xDEAD_BEEFu32; fb_w * fb_h]; // poison to catch gaps

    draw(&world, &mut fb, fb_w, fb_h, tile_px, &sprites, &pal);

    // No poisoned pixel survives: every tile fully paints its block (the
    // player's transparent paper still lands on the floor drawn first).
    assert!(fb.iter().all(|&p| p != 0xDEAD_BEEF), "draw covers the whole buffer");
}
