//! `bitmaze new`: generate a walls-only sample level.
use vstd::prelude::*;

use crate::format::Level;
use crate::paint::{lemma_holds_ext, lemma_zero_plane_holds, paint, plane_holds, zero_plane};

verus! {

/// Tile `(x, y)` is on the edge of a `w`×`h` level.
pub open spec fn on_border(w: int, h: int, x: int, y: int) -> bool {
    x == 0 || y == 0 || x == w - 1 || y == h - 1
}

/// Where the horizontal stub starts: a quarter in from the right wall, but
/// at least two tiles past the vertical wall.
pub open spec fn stub_start(w: int) -> int {
    if w - w / 4 >= w / 3 + 2 {
        w - w / 4
    } else {
        w / 3 + 2
    }
}

/// The walls of the generated maze: a solid border and, when the level is at
/// least 5×5, a vertical wall a third of the way across with a gap in the
/// middle row, plus a horizontal stub reaching in from the right wall.
pub open spec fn maze_wall(w: int, h: int, x: int, y: int) -> bool {
    on_border(w, h, x, y) || (w >= 5 && h >= 5 && ((x == w / 3 && 1 <= y < h - 1 && y != h / 2)
        || (y == h / 2 && stub_start(w) <= x < w - 1)))
}

spec fn border_done(w: int, h: int, y: int, x: int, a: int, b: int) -> bool {
    on_border(w, h, a, b) && (b < y || (b == y && a < x))
}

spec fn divider_done(w: int, h: int, y: int, a: int, b: int) -> bool {
    on_border(w, h, a, b) || (a == w / 3 && 1 <= b < y && b != h / 2)
}

spec fn stub_done(w: int, h: int, x: int, a: int, b: int) -> bool {
    on_border(w, h, a, b) || (a == w / 3 && 1 <= b < h - 1 && b != h / 2) || (b == h / 2
        && stub_start(w) <= a < x)
}

/// Generate a bordered maze: a solid wall border, a floor interior, and a
/// couple of interior wall stubs. Deterministic, walls-only (`flags = 0`, a
/// single bitplane).
pub fn generate(width: u8, height: u8) -> (l: Level)
    ensures
        l@.width == width,
        l@.height == height,
        l@.planes.len() == 1,
        l@.triggers is None,
        l@.scripts is None,
        plane_holds(
            l@.planes[0],
            width as int,
            height as int,
            |a: int, b: int| maze_wall(width as int, height as int, a, b),
        ),
{
    let ghost w = width as int;
    let ghost h = height as int;
    let mut level = Level::blank(width, height);
    proof {
        lemma_zero_plane_holds(width, height);
        assert(level@.planes[0] == zero_plane(width, height));
        lemma_holds_ext(
            level@.planes[0],
            width,
            height,
            |a: int, b: int| false,
            |a: int, b: int| border_done(w, h, 0, 0, a, b),
        );
    }
    let mut y: u8 = 0;
    while y < height
        invariant
            w == width,
            h == height,
            y <= height,
            level@.width == width,
            level@.height == height,
            level@.planes.len() == 1,
            level@.triggers is None,
            level@.scripts is None,
            plane_holds(level@.planes[0], w, h, |a: int, b: int| border_done(w, h, y as int, 0, a, b)),
        decreases height - y,
    {
        let mut x: u8 = 0;
        while x < width
            invariant
                w == width,
                h == height,
                y < height,
                x <= width,
                level@.width == width,
                level@.height == height,
                level@.planes.len() == 1,
                level@.triggers is None,
                level@.scripts is None,
                plane_holds(
                    level@.planes[0],
                    w,
                    h,
                    |a: int, b: int| border_done(w, h, y as int, x as int, a, b),
                ),
            decreases width - x,
        {
            let border = x == 0 || y == 0 || x == width - 1 || y == height - 1;
            if border {
                paint(
                    &mut level,
                    0,
                    x,
                    y,
                    Ghost(|a: int, b: int| border_done(w, h, y as int, x as int, a, b)),
                    Ghost(|a: int, b: int| border_done(w, h, y as int, x + 1, a, b)),
                );
            } else {
                proof {
                    lemma_holds_ext(
                        level@.planes[0],
                        width,
                        height,
                        |a: int, b: int| border_done(w, h, y as int, x as int, a, b),
                        |a: int, b: int| border_done(w, h, y as int, x + 1, a, b),
                    );
                }
            }
            x = x + 1;
        }
        proof {
            lemma_holds_ext(
                level@.planes[0],
                width,
                height,
                |a: int, b: int| border_done(w, h, y as int, x as int, a, b),
                |a: int, b: int| border_done(w, h, y + 1, 0, a, b),
            );
        }
        y = y + 1;
    }
    proof {
        lemma_holds_ext(
            level@.planes[0],
            width,
            height,
            |a: int, b: int| border_done(w, h, y as int, 0, a, b),
            |a: int, b: int| divider_done(w, h, 1, a, b),
        );
    }
    if width >= 5 && height >= 5 {
        let wx = width / 3;
        let gap = height / 2;
        let mut y: u8 = 1;
        while y < height - 1
            invariant
                w == width,
                h == height,
                width >= 5,
                height >= 5,
                wx == width / 3,
                gap == height / 2,
                1 <= y <= height - 1,
                level@.width == width,
                level@.height == height,
                level@.planes.len() == 1,
                level@.triggers is None,
                level@.scripts is None,
                plane_holds(level@.planes[0], w, h, |a: int, b: int| divider_done(w, h, y as int, a, b)),
            decreases height - y,
        {
            if y != gap {
                paint(
                    &mut level,
                    0,
                    wx,
                    y,
                    Ghost(|a: int, b: int| divider_done(w, h, y as int, a, b)),
                    Ghost(|a: int, b: int| divider_done(w, h, y + 1, a, b)),
                );
            } else {
                proof {
                    lemma_holds_ext(
                        level@.planes[0],
                        width,
                        height,
                        |a: int, b: int| divider_done(w, h, y as int, a, b),
                        |a: int, b: int| divider_done(w, h, y + 1, a, b),
                    );
                }
            }
            y = y + 1;
        }
        let hy = height / 2;
        let a = width - width / 4;
        let stub_end = if a >= wx + 2 {
            a
        } else {
            wx + 2
        };
        proof {
            lemma_holds_ext(
                level@.planes[0],
                width,
                height,
                |a: int, b: int| divider_done(w, h, y as int, a, b),
                |a: int, b: int| stub_done(w, h, stub_end as int, a, b),
            );
        }
        let mut x: u8 = stub_end;
        while x < width - 1
            invariant
                w == width,
                h == height,
                width >= 5,
                height >= 5,
                hy == height / 2,
                stub_end == stub_start(w),
                stub_end <= x,
                level@.width == width,
                level@.height == height,
                level@.planes.len() == 1,
                level@.triggers is None,
                level@.scripts is None,
                plane_holds(level@.planes[0], w, h, |a: int, b: int| stub_done(w, h, x as int, a, b)),
            decreases width - x,
        {
            paint(
                &mut level,
                0,
                x,
                hy,
                Ghost(|a: int, b: int| stub_done(w, h, x as int, a, b)),
                Ghost(|a: int, b: int| stub_done(w, h, x + 1, a, b)),
            );
            x = x + 1;
        }
        proof {
            lemma_holds_ext(
                level@.planes[0],
                width,
                height,
                |a: int, b: int| stub_done(w, h, x as int, a, b),
                |a: int, b: int| maze_wall(w, h, a, b),
            );
        }
    } else {
        proof {
            lemma_holds_ext(
                level@.planes[0],
                width,
                height,
                |a: int, b: int| divider_done(w, h, 1, a, b),
                |a: int, b: int| maze_wall(w, h, a, b),
            );
        }
    }
    level
}

} // verus!
