//! Pure software framebuffer rendering, the headless-testable seam.
//!
//! [`draw`] fills a flat `u32` pixel buffer (`0x00RR_GGBB`) from a [`World`],
//! a [`Sprites`] set and a [`Palette`]. Each tile blits a 1-bit sprite through
//! the palette, scaled to `tile_px` with nearest-neighbour sampling: a wall
//! tile blits the wall sprite; any other tile blits the floor sprite, then
//! composites the item gem, the hazard spikes or the player over it, whose
//! paper is transparent so the floor shows through. [`to_ppm`] encodes a
//! buffer as a binary P6 PPM image.
use vstd::prelude::*;

use crate::format::lemma_byte_in_plane;
use crate::sprite::{Palette, Sprite, SpriteView, Sprites};
use crate::text::{dec, push_dec, push_str};
use crate::world::{World, WorldView, HAZARDS_PLANE, ITEMS_PLANE, WALLS_PLANE};

verus! {

/// Framebuffer width in pixels for a level of `width` tiles at `tile_px` each.
pub fn fb_width(world: &World, tile_px: usize) -> (n: usize)
    requires
        world@.level.width * tile_px <= usize::MAX,
    ensures
        n == world@.level.width * tile_px,
{
    world.level().width as usize * tile_px
}

/// Framebuffer height in pixels for a level of `height` tiles at `tile_px` each.
pub fn fb_height(world: &World, tile_px: usize) -> (n: usize)
    requires
        world@.level.height * tile_px <= usize::MAX,
    ensures
        n == world@.level.height * tile_px,
{
    world.level().height as usize * tile_px
}

/// The sprite pixel that tile-local pixel `(dx, dy)` samples at `tile_px`
/// scale (nearest neighbour).
pub open spec fn sampled(s: SpriteView, dx: int, dy: int, tile_px: int) -> bool {
    s.pixel(dx * s.width / tile_px, dy * s.height / tile_px)
}

/// A sprite blitted over `under`: ink paints `ink`; paper paints `paper`, or
/// leaves `under` when the paper is transparent.
pub open spec fn layer(
    under: u32,
    s: SpriteView,
    ink: u32,
    paper: Option<u32>,
    dx: int,
    dy: int,
    tile_px: int,
) -> u32 {
    if sampled(s, dx, dy, tile_px) {
        ink
    } else {
        match paper {
            Some(p) => p,
            None => under,
        }
    }
}

/// The color of tile-local pixel `(dx, dy)` of tile `(tx, ty)`.
pub open spec fn tile_pixel(
    w: WorldView,
    sprites: Sprites,
    pal: Palette,
    tx: int,
    ty: int,
    dx: int,
    dy: int,
    tile_px: int,
) -> u32 {
    if w.level.bit(0, tx, ty) {
        layer(0, sprites.wall@, pal.wall_ink, Some(pal.wall_paper), dx, dy, tile_px)
    } else {
        let floor = layer(0, sprites.floor@, pal.floor_ink, Some(pal.floor_paper), dx, dy, tile_px);
        if tx == w.px && ty == w.py {
            layer(floor, sprites.player@, pal.player_ink, None, dx, dy, tile_px)
        } else {
            let gem = if w.level.bit(1, tx, ty) {
                layer(floor, sprites.item@, pal.item_ink, None, dx, dy, tile_px)
            } else {
                floor
            };
            if w.level.bit(2, tx, ty) {
                layer(gem, sprites.hazard@, pal.hazard_ink, None, dx, dy, tile_px)
            } else {
                gem
            }
        }
    }
}

/// Buffer index `i` lies in tile `(tx, ty)`'s block of a `fb_w`×`fb_h` buffer.
pub open spec fn in_tile(i: int, fb_w: int, fb_h: int, tile_px: int, tx: int, ty: int) -> bool {
    &&& fb_w > 0
    &&& tile_px > 0
    &&& i / fb_w < fb_h
    &&& (i % fb_w) / tile_px == tx
    &&& (i / fb_w) / tile_px == ty
}

/// What [`draw`] leaves at buffer index `i` that held `old`: the pixel of the
/// tile covering it, or `old` where no tile of the level reaches.
pub open spec fn drawn(
    w: WorldView,
    sprites: Sprites,
    pal: Palette,
    fb_w: int,
    fb_h: int,
    tile_px: int,
    i: int,
    old: u32,
) -> u32 {
    if fb_w > 0 && tile_px > 0 && i / fb_w < fb_h && (i % fb_w) / tile_px < w.level.width && (i
        / fb_w) / tile_px < w.level.height {
        tile_pixel(
            w,
            sprites,
            pal,
            (i % fb_w) / tile_px,
            (i / fb_w) / tile_px,
            (i % fb_w) % tile_px,
            (i / fb_w) % tile_px,
            tile_px,
        )
    } else {
        old
    }
}

proof fn lemma_coords(i: int, fb_w: int, px: int, py: int)
    requires
        fb_w > 0,
        0 <= px < fb_w,
        py >= 0,
        i == py * fb_w + px,
    ensures
        i / fb_w == py,
        i % fb_w == px,
{
    vstd::arithmetic::div_mod::lemma_fundamental_div_mod_converse(i, fb_w, py, px);
}

proof fn lemma_block(v: int, tp: int, t: int)
    requires
        tp > 0,
        v / tp == t,
    ensures
        v == t * tp + v % tp,
        0 <= v % tp < tp,
{
    vstd::arithmetic::div_mod::lemma_fundamental_div_mod(v, tp);
    vstd::arithmetic::div_mod::lemma_mod_bound(v, tp);
    vstd::arithmetic::mul::lemma_mul_is_commutative(t, tp);
}

proof fn lemma_sample_in_range(d: int, dim: int, tile_px: int)
    requires
        0 <= d < tile_px,
        0 <= dim <= 255,
    ensures
        0 <= d * dim / tile_px,
        dim > 0 ==> d * dim / tile_px < dim,
        d * dim < 255 * tile_px + 1,
{
    assert(0 <= d * dim <= d * 255) by (nonlinear_arith)
        requires
            0 <= d,
            0 <= dim <= 255,
    ;
    assert(d * 255 < 255 * tile_px + 1) by (nonlinear_arith)
        requires
            0 <= d < tile_px,
    ;
    if dim > 0 {
        assert(d * dim < tile_px * dim) by (nonlinear_arith)
            requires
                0 <= d < tile_px,
                dim > 0,
        ;
        vstd::arithmetic::div_mod::lemma_div_by_multiple_is_strongly_ordered(
            d * dim,
            tile_px * dim,
            dim,
            tile_px,
        );
        vstd::arithmetic::div_mod::lemma_div_multiples_vanish(dim, tile_px);
    }
    vstd::arithmetic::div_mod::lemma_div_pos_is_pos(d * dim, tile_px);
}

/// Sample `sprite` at tile-local `(dx, dy)`.
fn sample(sprite: &Sprite, dx: usize, dy: usize, tile_px: usize) -> (b: bool)
    requires
        sprite@.wf(),
        dx < tile_px,
        dy < tile_px,
        tile_px * 256 <= usize::MAX,
    ensures
        b == sampled(sprite@, dx as int, dy as int, tile_px as int),
{
    proof {
        lemma_sample_in_range(dx as int, sprite.width as int, tile_px as int);
        lemma_sample_in_range(dy as int, sprite.height as int, tile_px as int);
    }
    let sx = dx * sprite.width as usize / tile_px;
    let sy = dy * sprite.height as usize / tile_px;
    if sx >= 256 || sy >= 256 {
        return false;
    }
    let sx = sx as u8;
    let sy = sy as u8;
    proof {
        if sx < sprite.width && sy < sprite.height {
            lemma_byte_in_plane(sprite.width, sprite.height, sx as int, sy as int);
        }
    }
    sprite.get(sx, sy)
}

/// Blit `sprite` into the block of tile `(tx, ty)`, scaled to `tile_px` with
/// nearest-neighbour sampling. Ink pixels are painted `ink`; paper pixels are
/// painted `paper` when it is `Some`, or skipped (transparent) when `None`.
/// Clipped to the buffer, so a short `fb` never panics.
fn blit(
    fb: &mut [u32],
    fb_w: usize,
    fb_h: usize,
    tile_px: usize,
    tx: u8,
    ty: u8,
    sprite: &Sprite,
    ink: u32,
    paper: Option<u32>,
)
    requires
        sprite@.wf(),
        tile_px * 256 <= usize::MAX,
        fb_w * fb_h <= usize::MAX,
    ensures
        final(fb)@.len() == old(fb)@.len(),
        forall|i: int|
            0 <= i < old(fb)@.len() ==> #[trigger] final(fb)@[i] == if in_tile(
                i,
                fb_w as int,
                fb_h as int,
                tile_px as int,
                tx as int,
                ty as int,
            ) {
                layer(
                    old(fb)@[i],
                    sprite@,
                    ink,
                    paper,
                    (i % fb_w as int) % tile_px as int,
                    (i / fb_w as int) % tile_px as int,
                    tile_px as int,
                )
            } else {
                old(fb)@[i]
            },
{
    let ghost start = fb@;
    let ghost w = fb_w as int;
    let ghost h = fb_h as int;
    let ghost tp = tile_px as int;
    if tile_px == 0 || fb_w == 0 {
        return;
    }
    proof {
        assert(tx as int * tp <= 255 * tp) by (nonlinear_arith)
            requires
                tx <= 255,
                tp >= 0,
        ;
        assert(ty as int * tp <= 255 * tp) by (nonlinear_arith)
            requires
                ty <= 255,
                tp >= 0,
        ;
    }
    let x0 = tx as usize * tile_px;
    let y0 = ty as usize * tile_px;
    let mut dy: usize = 0;
    while dy < tile_px && y0 + dy < fb_h
        invariant
            tile_px > 0,
            fb_w > 0,
            tp == tile_px,
            w == fb_w,
            h == fb_h,
            x0 == tx * tile_px,
            y0 == ty * tile_px,
            x0 <= 255 * tile_px,
            y0 <= 255 * tile_px,
            tile_px * 256 <= usize::MAX,
            fb_w * fb_h <= usize::MAX,
            sprite@.wf(),
            dy <= tile_px,
            fb@.len() == start.len(),
            forall|i: int|
                0 <= i < start.len() ==> #[trigger] fb@[i] == if in_tile(
                    i,
                    w,
                    h,
                    tp,
                    tx as int,
                    ty as int,
                ) && (i / w) % tp < dy {
                    layer(start[i], sprite@, ink, paper, (i % w) % tp, (i / w) % tp, tp)
                } else {
                    start[i]
                },
        decreases tile_px - dy,
    {
        let py = y0 + dy;
        proof {
            assert(py * w <= (h - 1) * w) by (nonlinear_arith)
                requires
                    py < h,
                    w > 0,
            ;
            assert((h - 1) * w + w == h * w) by (nonlinear_arith);
            vstd::arithmetic::div_mod::lemma_fundamental_div_mod_converse(
                py as int,
                tp,
                ty as int,
                dy as int,
            );
        }
        let row = py * fb_w;
        let mut dx: usize = 0;
        while dx < tile_px && x0 + dx < fb_w
            invariant
                tile_px > 0,
                fb_w > 0,
                tp == tile_px,
                w == fb_w,
                h == fb_h,
                x0 == tx * tile_px,
                y0 == ty * tile_px,
                x0 <= 255 * tile_px,
                y0 <= 255 * tile_px,
                tile_px * 256 <= usize::MAX,
                fb_w * fb_h <= usize::MAX,
                sprite@.wf(),
                dy < tile_px,
                py == y0 + dy,
                py < fb_h,
                row == py * fb_w,
                row + fb_w <= fb_w * fb_h,
                py as int / tp == ty,
                py as int % tp == dy,
                dx <= tile_px,
                fb@.len() == start.len(),
                forall|i: int|
                    0 <= i < start.len() ==> #[trigger] fb@[i] == if in_tile(
                        i,
                        w,
                        h,
                        tp,
                        tx as int,
                        ty as int,
                    ) && ((i / w) % tp < dy || ((i / w) % tp == dy && (i % w) % tp < dx)) {
                        layer(start[i], sprite@, ink, paper, (i % w) % tp, (i / w) % tp, tp)
                    } else {
                        start[i]
                    },
            decreases tile_px - dx,
        {
            let px = x0 + dx;
            let on = sample(sprite, dx, dy, tile_px);
            let color = if on {
                Some(ink)
            } else {
                paper
            };
            let idx = row + px;
            let ghost before = fb@;
            proof {
                lemma_coords(idx as int, w, px as int, py as int);
                vstd::arithmetic::div_mod::lemma_fundamental_div_mod_converse(
                    px as int,
                    tp,
                    tx as int,
                    dx as int,
                );
            }
            if idx < fb.len() {
                match color {
                    Some(c) => {
                        fb[idx] = c;
                    },
                    None => {},
                }
            }
            proof {
                assert forall|i: int| 0 <= i < start.len() implies #[trigger] fb@[i] == if in_tile(
                    i,
                    w,
                    h,
                    tp,
                    tx as int,
                    ty as int,
                ) && ((i / w) % tp < dy || ((i / w) % tp == dy && (i % w) % tp < dx + 1)) {
                    layer(start[i], sprite@, ink, paper, (i % w) % tp, (i / w) % tp, tp)
                } else {
                    start[i]
                } by {
                    if i != idx {
                        assert(fb@[i] == before[i]);
                        if in_tile(i, w, h, tp, tx as int, ty as int) && (i / w) % tp == dy && (i
                            % w) % tp == dx {
                            vstd::arithmetic::div_mod::lemma_fundamental_div_mod(i, w);
                            lemma_block(i / w, tp, ty as int);
                            lemma_block(i % w, tp, tx as int);
                            assert(i / w == py);
                            assert(i % w == px);
                            vstd::arithmetic::mul::lemma_mul_is_commutative(w, py as int);
                            assert(i == idx);
                        }
                    }
                }
            }
            dx = dx + 1;
        }
        proof {
            assert forall|i: int| 0 <= i < start.len() implies #[trigger] fb@[i] == if in_tile(
                i,
                w,
                h,
                tp,
                tx as int,
                ty as int,
            ) && (i / w) % tp < dy + 1 {
                layer(start[i], sprite@, ink, paper, (i % w) % tp, (i / w) % tp, tp)
            } else {
                start[i]
            } by {
                if in_tile(i, w, h, tp, tx as int, ty as int) && (i / w) % tp == dy {
                    lemma_block(i % w, tp, tx as int);
                    vstd::arithmetic::div_mod::lemma_mod_bound(i, w);
                    assert((i % w) % tp < dx);
                }
            }
        }
        dy = dy + 1;
    }
    proof {
        assert forall|i: int| 0 <= i < start.len() implies #[trigger] fb@[i] == if in_tile(
            i,
            w,
            h,
            tp,
            tx as int,
            ty as int,
        ) {
            layer(start[i], sprite@, ink, paper, (i % w) % tp, (i / w) % tp, tp)
        } else {
            start[i]
        } by {
            if in_tile(i, w, h, tp, tx as int, ty as int) {
                lemma_block(i / w, tp, ty as int);
                assert((i / w) % tp < dy);
            }
        }
    }
}

/// Paint tile `(tx, ty)`: the wall sprite, or the floor with the item, hazard
/// or player composited over it.
fn draw_tile(
    world: &World,
    fb: &mut [u32],
    fb_w: usize,
    fb_h: usize,
    tile_px: usize,
    tx: u8,
    ty: u8,
    sprites: &Sprites,
    palette: &Palette,
)
    requires
        world.wf(),
        sprites.wf(),
        tx < world@.level.width,
        ty < world@.level.height,
        tile_px * 256 <= usize::MAX,
        fb_w * fb_h <= usize::MAX,
    ensures
        final(fb)@.len() == old(fb)@.len(),
        forall|i: int|
            0 <= i < old(fb)@.len() ==> #[trigger] final(fb)@[i] == if in_tile(
                i,
                fb_w as int,
                fb_h as int,
                tile_px as int,
                tx as int,
                ty as int,
            ) {
                tile_pixel(
                    world@,
                    *sprites,
                    *palette,
                    tx as int,
                    ty as int,
                    (i % fb_w as int) % tile_px as int,
                    (i / fb_w as int) % tile_px as int,
                    tile_px as int,
                )
            } else {
                old(fb)@[i]
            },
{
    let ghost start = fb@;
    let ghost w = fb_w as int;
    let ghost h = fb_h as int;
    let ghost tp = tile_px as int;
    let level = world.level();
    let (ppx, ppy) = world.player();
    proof {
        lemma_byte_in_plane(level.width, level.height, tx as int, ty as int);
    }
    let is_wall = level.get_bit(WALLS_PLANE, tx, ty);
    if is_wall {
        blit(fb, fb_w, fb_h, tile_px, tx, ty, &sprites.wall, palette.wall_ink, Some(palette.wall_paper));
        return;
    }
    blit(fb, fb_w, fb_h, tile_px, tx, ty, &sprites.floor, palette.floor_ink, Some(palette.floor_paper));
    let ghost floor = fb@;
    if tx == ppx && ty == ppy {
        blit(fb, fb_w, fb_h, tile_px, tx, ty, &sprites.player, palette.player_ink, None);
        return;
    }
    let has_item = level.get_bit(ITEMS_PLANE, tx, ty);
    if has_item {
        blit(fb, fb_w, fb_h, tile_px, tx, ty, &sprites.item, palette.item_ink, None);
    }
    let ghost gem = fb@;
    assert forall|i: int| 0 <= i < start.len() implies #[trigger] gem[i] == if in_tile(
        i,
        w,
        h,
        tp,
        tx as int,
        ty as int,
    ) {
        let dx = (i % w) % tp;
        let dy = (i / w) % tp;
        let f = layer(0, sprites.floor@, palette.floor_ink, Some(palette.floor_paper), dx, dy, tp);
        if has_item {
            layer(f, sprites.item@, palette.item_ink, None, dx, dy, tp)
        } else {
            f
        }
    } else {
        start[i]
    } by {
        assert(floor[i] == gem[i] || has_item);
    }
    let has_hazard = level.get_bit(HAZARDS_PLANE, tx, ty);
    if has_hazard {
        blit(fb, fb_w, fb_h, tile_px, tx, ty, &sprites.hazard, palette.hazard_ink, None);
    }
    assert forall|i: int| 0 <= i < start.len() implies #[trigger] fb@[i] == if in_tile(
        i,
        w,
        h,
        tp,
        tx as int,
        ty as int,
    ) {
        tile_pixel(world@, *sprites, *palette, tx as int, ty as int, (i % w) % tp, (i / w) % tp, tp)
    } else {
        start[i]
    } by {
        assert(gem[i] == fb@[i] || has_hazard);
    }
}

/// Fill `fb` with the current world by blitting a 1-bit sprite per tile
/// through `palette`. `fb_w`/`fb_h` are the buffer's pixel dimensions, normally
/// `tile_px` times the level's tile dimensions (see [`fb_width`] and
/// [`fb_height`]); pixels past the end of a short `fb` are skipped.
pub fn draw(
    world: &World,
    fb: &mut [u32],
    fb_w: usize,
    fb_h: usize,
    tile_px: usize,
    sprites: &Sprites,
    palette: &Palette,
)
    requires
        world.wf(),
        sprites.wf(),
        tile_px * 256 <= usize::MAX,
        fb_w * fb_h <= usize::MAX,
    ensures
        final(fb)@.len() == old(fb)@.len(),
        forall|i: int|
            0 <= i < old(fb)@.len() ==> #[trigger] final(fb)@[i] == drawn(
                world@,
                *sprites,
                *palette,
                fb_w as int,
                fb_h as int,
                tile_px as int,
                i,
                old(fb)@[i],
            ),
{
    let ghost start = fb@;
    let ghost w = fb_w as int;
    let ghost h = fb_h as int;
    let ghost tp = tile_px as int;
    let ghost wv = world@;
    let height = world.level().height;
    let width = world.level().width;
    let mut ty: u8 = 0;
    while ty < height
        invariant
            world.wf(),
            sprites.wf(),
            wv == world@,
            tile_px * 256 <= usize::MAX,
            fb_w * fb_h <= usize::MAX,
            w == fb_w,
            h == fb_h,
            tp == tile_px,
            height == wv.level.height,
            width == wv.level.width,
            ty <= height,
            fb@.len() == start.len(),
            forall|i: int|
                0 <= i < start.len() ==> #[trigger] fb@[i] == if w > 0 && tp > 0 && i / w < h && (i
                    % w) / tp < width && (i / w) / tp < ty {
                    tile_pixel(
                        wv,
                        *sprites,
                        *palette,
                        (i % w) / tp,
                        (i / w) / tp,
                        (i % w) % tp,
                        (i / w) % tp,
                        tp,
                    )
                } else {
                    start[i]
                },
        decreases height - ty,
    {
        let mut tx: u8 = 0;
        while tx < width
            invariant
                world.wf(),
                sprites.wf(),
                wv == world@,
                tile_px * 256 <= usize::MAX,
                fb_w * fb_h <= usize::MAX,
                w == fb_w,
                h == fb_h,
                tp == tile_px,
                height == wv.level.height,
                width == wv.level.width,
                ty < height,
                tx <= width,
                fb@.len() == start.len(),
                forall|i: int|
                    0 <= i < start.len() ==> #[trigger] fb@[i] == if w > 0 && tp > 0 && i / w < h
                        && (i % w) / tp < width && ((i / w) / tp < ty || ((i / w) / tp == ty && (i
                        % w) / tp < tx)) {
                        tile_pixel(
                            wv,
                            *sprites,
                            *palette,
                            (i % w) / tp,
                            (i / w) / tp,
                            (i % w) % tp,
                            (i / w) % tp,
                            tp,
                        )
                    } else {
                        start[i]
                    },
            decreases width - tx,
        {
            let ghost before = fb@;
            draw_tile(world, fb, fb_w, fb_h, tile_px, tx, ty, sprites, palette);
            assert forall|i: int| 0 <= i < start.len() implies #[trigger] fb@[i] == if w > 0 && tp
                > 0 && i / w < h && (i % w) / tp < width && ((i / w) / tp < ty || ((i / w) / tp
                == ty && (i % w) / tp < tx + 1)) {
                tile_pixel(
                    wv,
                    *sprites,
                    *palette,
                    (i % w) / tp,
                    (i / w) / tp,
                    (i % w) % tp,
                    (i / w) % tp,
                    tp,
                )
            } else {
                start[i]
            } by {
                assert(fb@[i] == before[i] || in_tile(i, w, h, tp, tx as int, ty as int));
            }
            tx = tx + 1;
        }
        ty = ty + 1;
    }
}

/// Encode a rendered `0x00RR_GGBB` pixel buffer as a binary P6 PPM image: an
/// ASCII header `P6\n<w> <h>\n255\n`, then `w * h` raw RGB triples (at most as
/// many as `fb` holds).
pub fn to_ppm(fb: &[u32], w: usize, h: usize) -> (out: Vec<u8>)
    requires
        w * h <= usize::MAX,
    ensures
        out@ == ppm_header(w as nat, h as nat) + ppm_body(fb@, w * h),
{
    let mut header: Vec<char> = Vec::new();
    push_str(&mut header, "P6\n");
    push_dec(&mut header, w as u64);
    push_str(&mut header, " ");
    push_dec(&mut header, h as u64);
    push_str(&mut header, "\n255\n");
    let mut out: Vec<u8> = Vec::new();
    let mut k: usize = 0;
    while k < header.len()
        invariant
            k <= header@.len(),
            out@ == ascii_bytes(header@.take(k as int)),
        decreases header.len() - k,
    {
        let c = header[k];
        out.push(c as u8);
        k = k + 1;
        assert(header@.take(k as int).drop_last() =~= header@.take(k - 1));
    }
    assert(header@.take(k as int) =~= header@);
    assert(header@ == ppm_header_chars(w as nat, h as nat));
    let ghost head = out@;
    let n = if w * h < fb.len() {
        w * h
    } else {
        fb.len()
    };
    let mut i: usize = 0;
    while i < n
        invariant
            n <= fb@.len(),
            n == (if w * h < fb@.len() {
                w * h
            } else {
                fb@.len() as int
            }),
            i <= n,
            out@ == head + ppm_body(fb@, i as int),
        decreases n - i,
    {
        let px = fb[i];
        out.push(((px >> 16) & 0xFF) as u8);
        out.push(((px >> 8) & 0xFF) as u8);
        out.push((px & 0xFF) as u8);
        i = i + 1;
        assert(ppm_body(fb@, i as int) =~= ppm_body(fb@, i - 1) + rgb(px));
    }
    assert(ppm_body(fb@, w * h) == ppm_body(fb@, n as int));
    out
}

/// The bytes of ASCII characters.
pub open spec fn ascii_bytes(cs: Seq<char>) -> Seq<u8> {
    cs.map_values(|c: char| c as u8)
}

/// The PPM header text: `P6\n<w> <h>\n255\n`.
pub open spec fn ppm_header_chars(w: nat, h: nat) -> Seq<char> {
    "P6\n"@ + dec(w) + " "@ + dec(h) + "\n255\n"@
}

/// The PPM header bytes.
pub open spec fn ppm_header(w: nat, h: nat) -> Seq<u8> {
    ascii_bytes(ppm_header_chars(w, h))
}

/// The red, green and blue bytes of a `0x00RR_GGBB` pixel.
pub open spec fn rgb(px: u32) -> Seq<u8> {
    seq![((px >> 16) & 0xFF) as u8, ((px >> 8) & 0xFF) as u8, (px & 0xFF) as u8]
}

/// The RGB triples of the first `n` pixels of `fb` (all of them when fewer).
pub open spec fn ppm_body(fb: Seq<u32>, n: int) -> Seq<u8>
    decreases n,
{
    if n <= 0 || fb.len() == 0 {
        seq![]
    } else if n > fb.len() {
        ppm_body(fb, fb.len() as int)
    } else {
        ppm_body(fb, n - 1) + rgb(fb[n - 1])
    }
}

/// The PPM body holds three bytes for each of the first `n` pixels of `fb`.
pub proof fn lemma_ppm_body_len(fb: Seq<u32>, n: int)
    requires
        0 <= n <= fb.len(),
    ensures
        ppm_body(fb, n).len() == 3 * n,
    decreases n,
{
    if n > 0 {
        lemma_ppm_body_len(fb, n - 1);
    }
}

proof fn lemma_div_lt(x: int, m: int, z: int)
    requires
        0 <= x < m * z,
        z > 0,
    ensures
        0 <= x / z < m,
{
    vstd::arithmetic::div_mod::lemma_fundamental_div_mod(x, z);
    vstd::arithmetic::div_mod::lemma_mod_bound(x, z);
    vstd::arithmetic::div_mod::lemma_div_pos_is_pos(x, z);
    if x / z >= m {
        assert(z * (x / z) >= z * m) by (nonlinear_arith)
            requires
                x / z >= m,
                z > 0,
        ;
        assert(m * z == z * m) by (nonlinear_arith);
    }
}

/// A buffer the level's own size in pixels is covered by its tiles: whatever
/// a pixel held before, [`draw`] leaves the same color there.
pub proof fn lemma_draw_covers_buffer(
    w: WorldView,
    sprites: Sprites,
    pal: Palette,
    tile_px: int,
    i: int,
    a: u32,
    b: u32,
)
    requires
        tile_px > 0,
        0 <= i < (w.level.width * tile_px) * (w.level.height * tile_px),
    ensures
        drawn(w, sprites, pal, w.level.width * tile_px, w.level.height * tile_px, tile_px, i, a)
            == drawn(w, sprites, pal, w.level.width * tile_px, w.level.height * tile_px, tile_px, i, b),
        ({
            let fw = w.level.width * tile_px;
            let fh = w.level.height * tile_px;
            &&& fw > 0
            &&& i / fw < fh
            &&& (i % fw) / tile_px < w.level.width
            &&& (i / fw) / tile_px < w.level.height
        }),
{
    let fw = w.level.width * tile_px;
    let fh = w.level.height * tile_px;
    assert(fw > 0) by (nonlinear_arith)
        requires
            fw == w.level.width * tile_px,
            tile_px > 0,
            0 <= i < fw * fh,
            fh >= 0,
    ;
    vstd::arithmetic::div_mod::lemma_mod_bound(i, fw);
    assert(fh > 0) by (nonlinear_arith)
        requires
            fw > 0,
            0 <= i < fw * fh,
    ;
    assert(fw * fh == fh * fw) by (nonlinear_arith);
    lemma_div_lt(i, fh, fw);
    lemma_div_lt(i % fw, w.level.width as int, tile_px);
    lemma_div_lt(i / fw, w.level.height as int, tile_px);
}

/// Nearest-neighbour scaling: when `tile_px` is `kx` times the sprite's
/// width and `ky` times its height, every `kx`-by-`ky` block of a tile shows
/// one sprite pixel. Tile-local pixel `(kx * sx + i, ky * sy + j)` samples
/// sprite pixel `(sx, sy)`, bit `sy * width + sx` of the sprite's bits.
pub proof fn lemma_scaling_blocks(
    s: SpriteView,
    tile_px: int,
    kx: int,
    ky: int,
    sx: int,
    sy: int,
    i: int,
    j: int,
)
    requires
        tile_px == kx * s.width,
        tile_px == ky * s.height,
        0 <= sx < s.width,
        0 <= sy < s.height,
        0 <= i < kx,
        0 <= j < ky,
    ensures
        sampled(s, kx * sx + i, ky * sy + j, tile_px) == crate::format::bit_of(
            s.bits,
            sy * s.width + sx,
        ),
{
    let w = s.width as int;
    let h = s.height as int;
    lemma_block_div(w, kx, sx, i);
    lemma_block_div(h, ky, sy, j);
}

/// `(k * q + r) * n / (k * n) == q` for `0 <= r < k` and `0 <= q`, `n > 0`.
proof fn lemma_block_div(n: int, k: int, q: int, r: int)
    requires
        n > 0,
        0 <= q,
        0 <= r < k,
    ensures
        (k * q + r) * n / (k * n) == q,
{
    assert((k * q + r) * n == q * (k * n) + r * n) by (nonlinear_arith);
    assert(0 <= r * n < k * n) by (nonlinear_arith)
        requires
            n > 0,
            0 <= r < k,
    ;
    assert(k * n > 0) by (nonlinear_arith)
        requires
            n > 0,
            0 <= r < k,
    ;
    vstd::arithmetic::div_mod::lemma_fundamental_div_mod_converse(
        (k * q + r) * n,
        k * n,
        q,
        r * n,
    );
}

/// A wall tile shows the wall sprite scaled up, in place. With the buffer
/// the level's size at `tile_px = k * w = k * h` for a `w`-by-`h` wall
/// sprite, the pixel at column `tx * tile_px + k * sx + i`, row
/// `ty * tile_px + k * sy + j` of the buffer, for a wall tile `(tx, ty)`, is
/// `wall_ink` where sprite pixel `(sx, sy)` is ink and `wall_paper` where it
/// is paper.
pub proof fn lemma_wall_tile_shows_scaled_sprite(
    w: WorldView,
    sprites: Sprites,
    pal: Palette,
    k: int,
    tx: int,
    ty: int,
    sx: int,
    sy: int,
    i: int,
    j: int,
    old: u32,
)
    requires
        k > 0,
        0 <= tx < w.level.width,
        0 <= ty < w.level.height,
        w.level.bit(0, tx, ty),
        0 <= sx < sprites.wall@.width,
        0 <= sy < sprites.wall@.height,
        k * sprites.wall@.width == k * sprites.wall@.height,
        0 <= i < k,
        0 <= j < k,
    ensures
        ({
            let s = sprites.wall@;
            let tile_px = k * s.width;
            let fw = w.level.width * tile_px;
            let fh = w.level.height * tile_px;
            let x = tx * tile_px + k * sx + i;
            let y = ty * tile_px + k * sy + j;
            drawn(w, sprites, pal, fw, fh, tile_px, y * fw + x, old) == if crate::format::bit_of(
                s.bits,
                sy * s.width + sx,
            ) {
                pal.wall_ink
            } else {
                pal.wall_paper
            }
        }),
{
    let s = sprites.wall@;
    let sw = s.width as int;
    let tile_px = k * sw;
    let fw = w.level.width * tile_px;
    let fh = w.level.height * tile_px;
    let dx = k * sx + i;
    let dy = k * sy + j;
    let x = tx * tile_px + dx;
    let y = ty * tile_px + dy;
    assert(sw > 0);
    assert(tile_px > 0) by (nonlinear_arith)
        requires
            tile_px == k * sw,
            k > 0,
            sw > 0,
    ;
    assert(0 <= dx < tile_px && 0 <= dy < tile_px) by (nonlinear_arith)
        requires
            tile_px == k * sw,
            k * sw == k * s.height,
            0 <= sx < sw,
            0 <= sy < s.height,
            0 <= i < k,
            0 <= j < k,
            dx == k * sx + i,
            dy == k * sy + j,
    ;
    assert(0 <= x < fw) by (nonlinear_arith)
        requires
            x == tx * tile_px + dx,
            fw == w.level.width * tile_px,
            0 <= tx < w.level.width,
            0 <= dx < tile_px,
    ;
    assert(0 <= y < fh) by (nonlinear_arith)
        requires
            y == ty * tile_px + dy,
            fh == w.level.height * tile_px,
            0 <= ty < w.level.height,
            0 <= dy < tile_px,
    ;
    vstd::arithmetic::div_mod::lemma_fundamental_div_mod_converse(y * fw + x, fw, y, x);
    vstd::arithmetic::div_mod::lemma_fundamental_div_mod_converse(x, tile_px, tx, dx);
    vstd::arithmetic::div_mod::lemma_fundamental_div_mod_converse(y, tile_px, ty, dy);
    lemma_scaling_blocks(s, tile_px, k, k, sx, sy, i, j);
}

} // verus!
