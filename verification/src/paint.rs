//! Painting tiles into bitplanes, and what a painted plane holds.
//!
//! A plane of a `w`×`h` level holds a tile predicate `f` when tile `(x, y)`
//! is set exactly where `f(x, y)` is, and the padding bits past the last tile
//! are clear. That pins the plane's bytes down completely.
use vstd::prelude::*;

use crate::format::{bit_of, lemma_byte_in_plane, plane_len_of, with_bit, Level, LevelView};
use crate::world::lemma_with_bit_bits;

verus! {

/// Plane `d` of a `w`×`h` level sets exactly the tiles where `f` holds.
pub open spec fn plane_holds(d: Seq<u8>, w: int, h: int, f: spec_fn(int, int) -> bool) -> bool {
    &&& d.len() == (w * h + 7) / 8
    &&& forall|i: int|
        0 <= i < d.len() * 8 ==> #[trigger] bit_of(d, i) == (i < w * h && f(i % w, i / w))
}

/// The all-clear plane of a `w`×`h` level.
pub open spec fn zero_plane(w: u8, h: u8) -> Seq<u8> {
    Seq::new(plane_len_of(w, h) as nat, |i: int| 0u8)
}

/// The all-clear plane holds no tile.
pub proof fn lemma_zero_plane_holds(w: u8, h: u8)
    ensures
        plane_holds(zero_plane(w, h), w as int, h as int, |a: int, b: int| false),
{
    let d = zero_plane(w, h);
    assert forall|i: int| 0 <= i < d.len() * 8 implies #[trigger] bit_of(d, i) == (i < w * h
        && false) by {
        let z = d[i / 8];
        let k = (7 - i % 8) as u8;
        assert(((z >> k) & 1u8) == 0u8) by (bit_vector)
            requires
                z == 0,
        ;
    }
}

proof fn lemma_tile_of(i: int, w: int, h: int)
    requires
        0 <= i < w * h,
        w > 0,
    ensures
        0 <= i % w < w,
        0 <= i / w < h,
        i == (i / w) * w + i % w,
{
    vstd::arithmetic::div_mod::lemma_fundamental_div_mod(i, w);
    vstd::arithmetic::div_mod::lemma_mod_bound(i, w);
    vstd::arithmetic::div_mod::lemma_div_pos_is_pos(i, w);
    vstd::arithmetic::mul::lemma_mul_is_commutative(w, i / w);
    if i / w >= h {
        assert((i / w) * w >= h * w) by (nonlinear_arith)
            requires
                i / w >= h,
                w > 0,
        ;
        assert(h * w == w * h) by (nonlinear_arith);
    }
}

/// Setting tile `(x, y)` of a plane that holds `f` gives a plane that holds
/// `f` or `(x, y)`.
pub proof fn lemma_paint(
    d: Seq<u8>,
    w: u8,
    h: u8,
    f: spec_fn(int, int) -> bool,
    x: int,
    y: int,
    g: spec_fn(int, int) -> bool,
)
    requires
        plane_holds(d, w as int, h as int, f),
        0 <= x < w,
        0 <= y < h,
        forall|a: int, b: int|
            0 <= a < w && 0 <= b < h ==> #[trigger] g(a, b) == (f(a, b) || (a == x && b == y)),
    ensures
        plane_holds(with_bit(d, y * w + x, true), w as int, h as int, g),
{
    let idx = y * w + x;
    lemma_byte_in_plane(w, h, x, y);
    assert(idx < w * h) by (nonlinear_arith)
        requires
            idx == y * w + x,
            0 <= x < w,
            0 <= y < h,
    ;
    vstd::arithmetic::div_mod::lemma_fundamental_div_mod_converse(idx, w as int, y, x);
    let nd = with_bit(d, idx, true);
    assert forall|i: int| 0 <= i < nd.len() * 8 implies #[trigger] bit_of(nd, i) == (i < w * h
        && g(i % w as int, i / w as int)) by {
        lemma_with_bit_bits(d, idx, i, true);
        if i < w * h {
            lemma_tile_of(i, w as int, h as int);
        }
    }
}

/// A plane that holds `f` holds every predicate that agrees with `f` on the
/// level's tiles.
pub proof fn lemma_holds_ext(
    d: Seq<u8>,
    w: u8,
    h: u8,
    f: spec_fn(int, int) -> bool,
    g: spec_fn(int, int) -> bool,
)
    requires
        plane_holds(d, w as int, h as int, f),
        forall|a: int, b: int| 0 <= a < w && 0 <= b < h ==> #[trigger] g(a, b) == f(a, b),
    ensures
        plane_holds(d, w as int, h as int, g),
{
    assert forall|i: int| 0 <= i < d.len() * 8 implies #[trigger] bit_of(d, i) == (i < w * h && g(
        i % w as int,
        i / w as int,
    )) by {
        if i < w * h && w > 0 {
            lemma_tile_of(i, w as int, h as int);
        }
    }
}

/// Two planes of one level that hold the same predicate are the same bytes.
pub proof fn lemma_holds_unique(d: Seq<u8>, e: Seq<u8>, w: u8, h: u8, f: spec_fn(int, int) -> bool)
    requires
        plane_holds(d, w as int, h as int, f),
        plane_holds(e, w as int, h as int, f),
    ensures
        d == e,
{
    assert forall|k: int| 0 <= k < d.len() implies d[k] == e[k] by {
        let a = d[k];
        let b = e[k];
        assert(bit_of(d, 8 * k + 0) == bit_of(e, 8 * k + 0));
        assert(bit_of(d, 8 * k + 1) == bit_of(e, 8 * k + 1));
        assert(bit_of(d, 8 * k + 2) == bit_of(e, 8 * k + 2));
        assert(bit_of(d, 8 * k + 3) == bit_of(e, 8 * k + 3));
        assert(bit_of(d, 8 * k + 4) == bit_of(e, 8 * k + 4));
        assert(bit_of(d, 8 * k + 5) == bit_of(e, 8 * k + 5));
        assert(bit_of(d, 8 * k + 6) == bit_of(e, 8 * k + 6));
        assert(bit_of(d, 8 * k + 7) == bit_of(e, 8 * k + 7));
        assert(a == b) by (bit_vector)
            requires
                ((a >> 7u8) & 1u8 == 1u8) == ((b >> 7u8) & 1u8 == 1u8),
                ((a >> 6u8) & 1u8 == 1u8) == ((b >> 6u8) & 1u8 == 1u8),
                ((a >> 5u8) & 1u8 == 1u8) == ((b >> 5u8) & 1u8 == 1u8),
                ((a >> 4u8) & 1u8 == 1u8) == ((b >> 4u8) & 1u8 == 1u8),
                ((a >> 3u8) & 1u8 == 1u8) == ((b >> 3u8) & 1u8 == 1u8),
                ((a >> 2u8) & 1u8 == 1u8) == ((b >> 2u8) & 1u8 == 1u8),
                ((a >> 1u8) & 1u8 == 1u8) == ((b >> 1u8) & 1u8 == 1u8),
                ((a >> 0u8) & 1u8 == 1u8) == ((b >> 0u8) & 1u8 == 1u8),
        ;
    }
    assert(d =~= e);
}

/// Set tile `(x, y)` of plane `p`.
pub(crate) fn paint(
    level: &mut Level,
    p: usize,
    x: u8,
    y: u8,
    Ghost(f): Ghost<spec_fn(int, int) -> bool>,
    Ghost(g): Ghost<spec_fn(int, int) -> bool>,
)
    requires
        p < old(level)@.planes.len(),
        x < old(level).width,
        y < old(level).height,
        plane_holds(
            old(level)@.planes[p as int],
            old(level).width as int,
            old(level).height as int,
            f,
        ),
        forall|a: int, b: int|
            0 <= a < old(level).width && 0 <= b < old(level).height ==> #[trigger] g(a, b) == (f(
                a,
                b,
            ) || (a == x && b == y)),
    ensures
        final(level)@.width == old(level)@.width,
        final(level)@.height == old(level)@.height,
        final(level)@.triggers == old(level)@.triggers,
        final(level)@.scripts == old(level)@.scripts,
        final(level)@.planes.len() == old(level)@.planes.len(),
        forall|q: int|
            0 <= q < old(level)@.planes.len() && q != p ==> #[trigger] final(level)@.planes[q]
                == old(level)@.planes[q],
        plane_holds(final(level)@.planes[p as int], old(level).width as int, old(level).height as int, g),
{
    proof {
        lemma_byte_in_plane(level.width, level.height, x as int, y as int);
        lemma_paint(level@.planes[p as int], level.width, level.height, f, x as int, y as int, g);
    }
    level.set_bit(p, x, y, true);
}

/// Tile `(x, y)` is on the edge of a `w`×`h` level.
pub open spec fn on_border(w: int, h: int, x: int, y: int) -> bool {
    x == 0 || y == 0 || x == w - 1 || y == h - 1
}

/// Tile `(a, b)` is one of `pts`.
pub open spec fn among(pts: Seq<(u8, u8)>, a: int, b: int) -> bool {
    exists|i: int| 0 <= i < pts.len() && pts[i].0 == a && pts[i].1 == b
}

/// What every painter keeps: the level's shape, its other planes, its
/// trigger plane and script table.
pub open spec fn same_but_plane(old: LevelView, new: LevelView, p: int) -> bool {
    &&& new.width == old.width
    &&& new.height == old.height
    &&& new.triggers == old.triggers
    &&& new.scripts == old.scripts
    &&& new.planes.len() == old.planes.len()
    &&& forall|q: int| 0 <= q < old.planes.len() && q != p ==> #[trigger] new.planes[q] == old.planes[q]
}

/// Paint tiles `(x, y0..=y1)` of plane `p`.
pub(crate) fn paint_column(
    level: &mut Level,
    p: usize,
    x: u8,
    y0: u8,
    y1: u8,
    Ghost(f): Ghost<spec_fn(int, int) -> bool>,
)
    requires
        p < old(level)@.planes.len(),
        x < old(level).width,
        y1 < old(level).height,
        y0 <= y1,
        plane_holds(old(level)@.planes[p as int], old(level).width as int, old(level).height as int, f),
    ensures
        same_but_plane(old(level)@, final(level)@, p as int),
        plane_holds(
            final(level)@.planes[p as int],
            old(level).width as int,
            old(level).height as int,
            |a: int, b: int| f(a, b) || (a == x && y0 <= b <= y1),
        ),
{
    let ghost start = level@;
    let ghost w = level.width as int;
    let ghost h = level.height as int;
    let mut y = y0;
    proof {
        lemma_holds_ext(
            level@.planes[p as int],
            level.width,
            level.height,
            f,
            |a: int, b: int| f(a, b) || (a == x && y0 <= b < y0),
        );
    }
    while y <= y1
        invariant
            start == old(level)@,
            start.planes.len() == level@.planes.len(),
            p < start.planes.len(),
            w == start.width,
            h == start.height,
            y1 < h,
            y0 <= y,
            y <= y1 + 1,
            x < w,
            same_but_plane(start, level@, p as int),
            plane_holds(level@.planes[p as int], w, h, |a: int, b: int| f(a, b) || (a == x && y0 <= b < y)),
        decreases y1 + 1 - y,
    {
        paint(
            level,
            p,
            x,
            y,
            Ghost(|a: int, b: int| f(a, b) || (a == x && y0 <= b < y)),
            Ghost(|a: int, b: int| f(a, b) || (a == x && y0 <= b < y + 1)),
        );
        if y == y1 {
            proof {
                lemma_holds_ext(
                    level@.planes[p as int],
                    level.width,
                    level.height,
                    |a: int, b: int| f(a, b) || (a == x && y0 <= b < y + 1),
                    |a: int, b: int| f(a, b) || (a == x && y0 <= b <= y1),
                );
            }
            return;
        }
        y = y + 1;
    }
    proof {
        lemma_holds_ext(
            level@.planes[p as int],
            level.width,
            level.height,
            |a: int, b: int| f(a, b) || (a == x && y0 <= b < y),
            |a: int, b: int| f(a, b) || (a == x && y0 <= b <= y1),
        );
    }
}

/// Paint tiles `(x0..=x1, y)` of plane `p`, all but the one at `x == gap`.
pub(crate) fn paint_run(
    level: &mut Level,
    p: usize,
    y: u8,
    x0: u8,
    x1: u8,
    gap: u8,
    Ghost(f): Ghost<spec_fn(int, int) -> bool>,
)
    requires
        p < old(level)@.planes.len(),
        y < old(level).height,
        x1 < old(level).width,
        x0 <= x1,
        plane_holds(old(level)@.planes[p as int], old(level).width as int, old(level).height as int, f),
    ensures
        same_but_plane(old(level)@, final(level)@, p as int),
        plane_holds(
            final(level)@.planes[p as int],
            old(level).width as int,
            old(level).height as int,
            |a: int, b: int| f(a, b) || (b == y && x0 <= a <= x1 && a != gap),
        ),
{
    let ghost start = level@;
    let ghost w = level.width as int;
    let ghost h = level.height as int;
    let mut x = x0;
    proof {
        lemma_holds_ext(
            level@.planes[p as int],
            level.width,
            level.height,
            f,
            |a: int, b: int| f(a, b) || (b == y && x0 <= a < x0 && a != gap),
        );
    }
    loop
        invariant
            start == old(level)@,
            start.planes.len() == level@.planes.len(),
            p < start.planes.len(),
            w == start.width,
            h == start.height,
            x1 < w,
            x0 <= x <= x1,
            y < h,
            same_but_plane(start, level@, p as int),
            plane_holds(
                level@.planes[p as int],
                w,
                h,
                |a: int, b: int| f(a, b) || (b == y && x0 <= a < x && a != gap),
            ),
        decreases x1 - x,
    {
        if x != gap {
            paint(
                level,
                p,
                x,
                y,
                Ghost(|a: int, b: int| f(a, b) || (b == y && x0 <= a < x && a != gap)),
                Ghost(|a: int, b: int| f(a, b) || (b == y && x0 <= a < x + 1 && a != gap)),
            );
        } else {
            proof {
                lemma_holds_ext(
                    level@.planes[p as int],
                    level.width,
                    level.height,
                    |a: int, b: int| f(a, b) || (b == y && x0 <= a < x && a != gap),
                    |a: int, b: int| f(a, b) || (b == y && x0 <= a < x + 1 && a != gap),
                );
            }
        }
        if x == x1 {
            proof {
                lemma_holds_ext(
                    level@.planes[p as int],
                    level.width,
                    level.height,
                    |a: int, b: int| f(a, b) || (b == y && x0 <= a < x + 1 && a != gap),
                    |a: int, b: int| f(a, b) || (b == y && x0 <= a <= x1 && a != gap),
                );
            }
            return;
        }
        x = x + 1;
    }
}

/// Paint every tile of `pts` on plane `p`.
pub(crate) fn paint_points(
    level: &mut Level,
    p: usize,
    pts: &[(u8, u8)],
    Ghost(f): Ghost<spec_fn(int, int) -> bool>,
)
    requires
        p < old(level)@.planes.len(),
        forall|i: int|
            0 <= i < pts@.len() ==> #[trigger] pts@[i].0 < old(level).width && pts@[i].1 < old(
                level,
            ).height,
        plane_holds(old(level)@.planes[p as int], old(level).width as int, old(level).height as int, f),
    ensures
        same_but_plane(old(level)@, final(level)@, p as int),
        plane_holds(
            final(level)@.planes[p as int],
            old(level).width as int,
            old(level).height as int,
            |a: int, b: int| f(a, b) || among(pts@, a, b),
        ),
{
    let ghost start = level@;
    let ghost w = level.width as int;
    let ghost h = level.height as int;
    proof {
        lemma_holds_ext(
            level@.planes[p as int],
            level.width,
            level.height,
            f,
            |a: int, b: int| f(a, b) || among(pts@.take(0), a, b),
        );
    }
    let mut k: usize = 0;
    while k < pts.len()
        invariant
            start == old(level)@,
            start.planes.len() == level@.planes.len(),
            p < start.planes.len(),
            w == start.width,
            h == start.height,
            k <= pts@.len(),
            forall|i: int| 0 <= i < pts@.len() ==> #[trigger] pts@[i].0 < w && pts@[i].1 < h,
            same_but_plane(start, level@, p as int),
            plane_holds(
                level@.planes[p as int],
                w,
                h,
                |a: int, b: int| f(a, b) || among(pts@.take(k as int), a, b),
            ),
        decreases pts.len() - k,
    {
        let (x, y) = pts[k];
        proof {
            let t0 = pts@.take(k as int);
            let t1 = pts@.take(k + 1);
            assert forall|a: int, b: int| 0 <= a < w && 0 <= b < h implies among(t1, a, b) == (among(
                t0,
                a,
                b,
            ) || (a == x && b == y)) by {
                if among(t1, a, b) {
                    let i = choose|i: int| 0 <= i < t1.len() && (#[trigger] t1[i]).0 == a && t1[i].1 == b;
                    if i < k {
                        assert(t0[i] == t1[i]);
                    }
                }
                if among(t0, a, b) {
                    let i = choose|i: int| 0 <= i < t0.len() && (#[trigger] t0[i]).0 == a && t0[i].1 == b;
                    assert(t1[i] == t0[i]);
                }
                if a == x && b == y {
                    assert(t1[k as int] == pts@[k as int]);
                }
            }
        }
        paint(
            level,
            p,
            x,
            y,
            Ghost(|a: int, b: int| f(a, b) || among(pts@.take(k as int), a, b)),
            Ghost(|a: int, b: int| f(a, b) || among(pts@.take(k + 1), a, b)),
        );
        k = k + 1;
    }
    proof {
        assert(pts@.take(k as int) =~= pts@);
    }
}

/// Draw a solid wall border around the level.
pub(crate) fn border(level: &mut Level, Ghost(f): Ghost<spec_fn(int, int) -> bool>)
    requires
        old(level)@.planes.len() >= 1,
        old(level).width >= 1,
        old(level).height >= 1,
        plane_holds(old(level)@.planes[0], old(level).width as int, old(level).height as int, f),
    ensures
        same_but_plane(old(level)@, final(level)@, 0),
        plane_holds(
            final(level)@.planes[0],
            old(level).width as int,
            old(level).height as int,
            |a: int, b: int| f(a, b) || on_border(old(level).width as int, old(level).height as int, a, b),
        ),
{
    let w = level.width;
    let h = level.height;
    let ghost start = level@;
    paint_run(level, 0, 0, 0, w - 1, w, Ghost(f));
    let ghost f1 = |a: int, b: int| f(a, b) || (b == 0 && 0 <= a <= w - 1 && a != w);
    paint_run(level, 0, h - 1, 0, w - 1, w, Ghost(f1));
    let ghost f2 = |a: int, b: int| f1(a, b) || (b == h - 1 && 0 <= a <= w - 1 && a != w);
    paint_column(level, 0, 0, 0, h - 1, Ghost(f2));
    let ghost f3 = |a: int, b: int| f2(a, b) || (a == 0 && 0 <= b <= h - 1);
    paint_column(level, 0, w - 1, 0, h - 1, Ghost(f3));
    proof {
        lemma_holds_ext(
            level@.planes[0],
            w,
            h,
            |a: int, b: int| f3(a, b) || (a == w - 1 && 0 <= b <= h - 1),
            |a: int, b: int| f(a, b) || on_border(w as int, h as int, a, b),
        );
    }
}

} // verus!
