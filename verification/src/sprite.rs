//! bit-maze `.spr` 1-bit sprite format and palette.
//!
//! A sprite is a hex-editable 1-bit binary file: a 5-byte header (`magic "SP"`,
//! `version`, `width`, `height`), then `ceil(width*height/8)` packed bits,
//! MSB-first, row-major, the bit convention of the `.bm` bitplanes. A bit `1`
//! is ink, `0` is paper; a [`Palette`] decides what each paints per tile role.
use vstd::prelude::*;

use crate::bytes::{append_slice, copy_range, zeros};
use crate::format::{
    bit_of, lemma_byte_in_plane, lemma_tiles_bound, plane_len, plane_len_of, with_bit,
};
use crate::text::{dec, hex_0x, push_dec, push_hex_0x, push_str, string_of};
use crate::world::lemma_with_bit_bits;

verus! {

/// Magic bytes at offset 0: ASCII `"SP"`.
pub const SPRITE_MAGIC: [u8; 2] = [0x53, 0x50];

/// The only sprite format version this build understands.
pub const SPRITE_VERSION: u8 = 1;

/// Fixed sprite header size in bytes (`magic` 2 + `version` 1 + `w` 1 + `h` 1).
pub const SPRITE_HEADER_LEN: usize = 5;

/// A single 1-bit sprite: `width`×`height` pixels, one bit each, MSB-first
/// row-major. Bit `1` = ink, bit `0` = paper.
#[derive(Debug, Clone, PartialEq, Eq)]
pub struct Sprite {
    pub width: u8,
    pub height: u8,
    /// Packed pixel bits, `ceil(width*height/8)` bytes.
    pub bits: Vec<u8>,
}

/// The mathematical content of a [`Sprite`].
pub struct SpriteView {
    pub width: u8,
    pub height: u8,
    pub bits: Seq<u8>,
}

impl View for Sprite {
    type V = SpriteView;

    open spec fn view(&self) -> SpriteView {
        SpriteView { width: self.width, height: self.height, bits: self.bits@ }
    }
}

impl SpriteView {
    /// The bits are exactly as long as the dimensions ask.
    pub open spec fn wf(self) -> bool {
        self.bits.len() == plane_len_of(self.width, self.height)
    }

    /// The index of pixel `(x, y)` in the bit stream.
    pub open spec fn index_of(self, x: int, y: int) -> int {
        y * self.width + x
    }

    /// Pixel `(x, y)` is ink; out of range reads as paper.
    pub open spec fn pixel(self, x: int, y: int) -> bool {
        0 <= x < self.width && 0 <= y < self.height && bit_of(self.bits, self.index_of(x, y))
    }
}

/// Pixel `i` (row-major) of `width`-wide rows given one byte per row,
/// MSB-first.
pub open spec fn row_pixel(rows: Seq<u8>, width: int, i: int) -> bool {
    ((rows[i / width] >> ((7 - i % width) as u8)) & 1u8) == 1u8
}

/// Row byte `r` has ink at column `x` (bit 7 is column 0).
pub open spec fn row_ink(r: u8, x: int) -> bool {
    ((r >> ((7 - x) as u8)) & 1u8) == 1u8
}

/// Column `x` of row `y` has ink and lands on bit `i` of a `width`-wide
/// sprite. A sprite's height is a `u8`, so row `y` lands on row `y % 256`.
pub open spec fn lands(rows: Seq<u8>, width: int, y: int, x: int, i: int) -> bool {
    &&& 0 <= y < rows.len()
    &&& 0 <= x < width
    &&& row_ink(rows[y], x)
    &&& (y % 256) * width + x == i
}

/// Some ink before row `y`, column `x` (row-major) lands on bit `i`.
pub open spec fn inked_before(rows: Seq<u8>, width: int, y: int, x: int, i: int) -> bool {
    exists|yy: int, xx: int| (yy < y || (yy == y && xx < x)) && #[trigger] lands(rows, width, yy, xx, i)
}

/// Every inked pixel lands inside the bits of a sprite `width` wide and
/// `rows.len() % 256` high.
pub open spec fn rows_fit(width: u8, rows: Seq<u8>) -> bool {
    forall|y: int, x: int|
        0 <= y < rows.len() && 0 <= x < width && #[trigger] row_ink(rows[y], x) ==> ((y % 256)
            * width + x) / 8 < plane_len_of(width, (rows.len() % 256) as u8)
}

/// With at most 255 rows, the ink landing on bit `i` is exactly the row
/// pixel there.
proof fn lemma_inked_is_row_pixel(rows: Seq<u8>, width: int, i: int)
    requires
        rows.len() <= 255,
        0 < width <= 8,
        0 <= i,
    ensures
        inked_before(rows, width, rows.len() as int, 0, i) == (i < width * rows.len()
            && row_pixel(rows, width, i)),
{
    let yy = i / width;
    let xx = i % width;
    vstd::arithmetic::div_mod::lemma_fundamental_div_mod(i, width);
    if inked_before(rows, width, rows.len() as int, 0, i) {
        let (y, x) = choose|y: int, x: int| (y < rows.len() || (y == rows.len() && x < 0)) && #[trigger] lands(rows, width, y, x, i);
        assert(y % 256 == y);
        vstd::arithmetic::div_mod::lemma_fundamental_div_mod_converse(i, width, y, x);
        assert(i < width * rows.len()) by (nonlinear_arith)
            requires
                i == y * width + x,
                0 <= x < width,
                0 <= y < rows.len(),
        ;
    }
    if i < width * rows.len() && row_pixel(rows, width, i) {
        assert(yy < rows.len()) by (nonlinear_arith)
            requires
                yy == i / width,
                i < width * rows.len(),
                width > 0,
                i >= 0,
        ;
        assert(yy >= 0) by (nonlinear_arith)
            requires
                yy == i / width,
                width > 0,
                i >= 0,
        ;
        assert(yy % 256 == yy);
        assert(row_ink(rows[yy], xx));
        assert(lands(rows, width, yy, xx, i));
    }
}

/// Everything that can go wrong parsing a `.spr` file.
#[derive(Debug)]
pub enum SpriteError {
    /// File shorter than the 5-byte header.
    ShortHeader(usize),
    /// Magic did not match. Carries the two bytes seen so we can spot `"PS"`.
    BadMagic([u8; 2]),
    UnknownVersion(u8),
    /// width or height was 0 (valid range is 1..=255).
    BadDimension { width: u8, height: u8 },
    /// Pixel data length did not exactly match `ceil(width*height/8)`.
    WrongLength { needed: usize, had: usize },
}

/// A sprite decoding failure as plain values.
pub enum SpriteFailure {
    ShortHeader(int),
    BadMagic(u8, u8),
    UnknownVersion(u8),
    BadDimension(u8, u8),
    WrongLength(int, int),
}

impl SpriteError {
    /// This error is the given failure.
    pub open spec fn is_failure(&self, f: SpriteFailure) -> bool {
        match f {
            SpriteFailure::ShortHeader(n) => self matches SpriteError::ShortHeader(m) && m == n,
            SpriteFailure::BadMagic(a, b) => self matches SpriteError::BadMagic(m) && m@ == seq![
                a,
                b,
            ],
            SpriteFailure::UnknownVersion(v) => self matches SpriteError::UnknownVersion(w) && w
                == v,
            SpriteFailure::BadDimension(w, h) => self matches SpriteError::BadDimension {
                width,
                height,
            } && width == w && height == h,
            SpriteFailure::WrongLength(n, h) => self matches SpriteError::WrongLength {
                needed,
                had,
            } && needed == n && had == h,
        }
    }

    /// The failure this error reports, as plain values.
    pub open spec fn failure(&self) -> SpriteFailure {
        match self {
            SpriteError::ShortHeader(n) => SpriteFailure::ShortHeader(*n as int),
            SpriteError::BadMagic(m) => SpriteFailure::BadMagic(m@[0], m@[1]),
            SpriteError::UnknownVersion(v) => SpriteFailure::UnknownVersion(*v),
            SpriteError::BadDimension { width, height } => SpriteFailure::BadDimension(
                *width,
                *height,
            ),
            SpriteError::WrongLength { needed, had } => SpriteFailure::WrongLength(
                *needed as int,
                *had as int,
            ),
        }
    }

    /// The error as text, naming what was found and what was expected.
    pub fn message(&self) -> (s: String)
        ensures
            s@ == failure_text(self.failure()),
    {
        let mut v: Vec<char> = Vec::new();
        match self {
            SpriteError::ShortHeader(n) => {
                push_str(&mut v, "sprite too short: ");
                push_dec(&mut v, *n as u64);
                push_str(&mut v, " bytes, need at least ");
                push_dec(&mut v, SPRITE_HEADER_LEN as u64);
                push_str(&mut v, " for the header");
            },
            SpriteError::BadMagic(m) => {
                push_str(&mut v, "bad sprite magic ");
                push_hex_0x(&mut v, m[0]);
                push_str(&mut v, " ");
                push_hex_0x(&mut v, m[1]);
                if m[0] == SPRITE_MAGIC[1] && m[1] == SPRITE_MAGIC[0] {
                    push_str(
                        &mut v,
                        ": this looks like byte-swapped \"PS\" \u{2014} the format is little-endian, expected \"SP\" (",
                    );
                    push_hex_0x(&mut v, SPRITE_MAGIC[0]);
                    push_str(&mut v, " ");
                    push_hex_0x(&mut v, SPRITE_MAGIC[1]);
                    push_str(&mut v, ")");
                } else {
                    push_str(&mut v, ": not a bit-maze sprite (expected \"SP\" ");
                    push_hex_0x(&mut v, SPRITE_MAGIC[0]);
                    push_str(&mut v, " ");
                    push_hex_0x(&mut v, SPRITE_MAGIC[1]);
                    push_str(&mut v, ")");
                }
            },
            SpriteError::UnknownVersion(ver) => {
                push_str(&mut v, "unknown sprite version ");
                push_dec(&mut v, *ver as u64);
                push_str(&mut v, ": this build only understands version ");
                push_dec(&mut v, SPRITE_VERSION as u64);
            },
            SpriteError::BadDimension { width, height } => {
                push_str(&mut v, "sprite dimensions ");
                push_dec(&mut v, *width as u64);
                push_str(&mut v, "x");
                push_dec(&mut v, *height as u64);
                push_str(&mut v, " out of range: width and height must be 1..=255");
            },
            SpriteError::WrongLength { needed, had } => {
                push_str(&mut v, "sprite pixel data is ");
                push_dec(&mut v, *had as u64);
                push_str(&mut v, " byte(s), header implies exactly ");
                push_dec(&mut v, *needed as u64);
            },
        }
        string_of(&v)
    }
}

/// The text of a sprite decoding failure.
pub open spec fn failure_text(f: SpriteFailure) -> Seq<char> {
    match f {
        SpriteFailure::ShortHeader(n) => "sprite too short: "@ + dec(n as nat)
            + " bytes, need at least "@ + dec(SPRITE_HEADER_LEN as nat) + " for the header"@,
        SpriteFailure::BadMagic(a, b) => if a == 0x50 && b == 0x53 {
            "bad sprite magic "@ + hex_0x(a) + " "@ + hex_0x(b)
                + ": this looks like byte-swapped \"PS\" \u{2014} the format is little-endian, expected \"SP\" ("@
                + hex_0x(0x53) + " "@ + hex_0x(0x50) + ")"@
        } else {
            "bad sprite magic "@ + hex_0x(a) + " "@ + hex_0x(b)
                + ": not a bit-maze sprite (expected \"SP\" "@ + hex_0x(0x53) + " "@ + hex_0x(0x50)
                + ")"@
        },
        SpriteFailure::UnknownVersion(v) => "unknown sprite version "@ + dec(v as nat)
            + ": this build only understands version "@ + dec(SPRITE_VERSION as nat),
        SpriteFailure::BadDimension(w, h) => "sprite dimensions "@ + dec(w as nat) + "x"@ + dec(
            h as nat,
        ) + " out of range: width and height must be 1..=255"@,
        SpriteFailure::WrongLength(needed, had) => "sprite pixel data is "@ + dec(had as nat)
            + " byte(s), header implies exactly "@ + dec(needed as nat),
    }
}

/// The first thing wrong with `d` as a `.spr` file, in the parser's order.
pub open spec fn sprite_failure(d: Seq<u8>) -> Option<SpriteFailure> {
    if d.len() < 5 {
        Some(SpriteFailure::ShortHeader(d.len() as int))
    } else if d[0] != 0x53 || d[1] != 0x50 {
        Some(SpriteFailure::BadMagic(d[0], d[1]))
    } else if d[2] != 1 {
        Some(SpriteFailure::UnknownVersion(d[2]))
    } else if d[3] == 0 || d[4] == 0 {
        Some(SpriteFailure::BadDimension(d[3], d[4]))
    } else if d.len() - 5 != plane_len_of(d[3], d[4]) {
        Some(SpriteFailure::WrongLength(plane_len_of(d[3], d[4]), d.len() - 5))
    } else {
        None
    }
}

/// The exact `.spr` bytes of a sprite.
pub open spec fn sprite_bytes(s: SpriteView) -> Seq<u8> {
    seq![0x53u8, 0x50u8, 1u8, s.width, s.height] + s.bits
}

/// Bytes needed to pack a `width`×`height` 1-bit sprite: `ceil(w*h/8)`.
pub fn bits_len(width: u8, height: u8) -> (n: usize)
    ensures
        n == plane_len_of(width, height),
{
    plane_len(width, height)
}

/// The ASCII art of row `y`: `#` ink, `.` paper, then a newline.
pub open spec fn ascii_row(s: SpriteView, y: int) -> Seq<char> {
    Seq::new(s.width as nat, |x: int| if s.pixel(x, y) { '#' } else { '.' }).push('\n')
}

/// The ASCII art of the first `n` rows.
pub open spec fn ascii_art(s: SpriteView, n: int) -> Seq<char>
    decreases n,
{
    if n <= 0 {
        seq![]
    } else {
        ascii_art(s, n - 1) + ascii_row(s, n - 1)
    }
}

/// The default wall sprite.
pub open spec fn wall_view() -> SpriteView {
    SpriteView { width: 8, height: 8, bits: seq![0xFFu8, 0xEE, 0xEE, 0x00, 0xBB, 0xBB, 0x00, 0xFF] }
}

/// The default floor sprite.
pub open spec fn floor_view() -> SpriteView {
    SpriteView { width: 8, height: 8, bits: seq![0x00u8, 0x00, 0x00, 0x18, 0x18, 0x00, 0x00, 0x00] }
}

/// The default player sprite.
pub open spec fn player_view() -> SpriteView {
    SpriteView { width: 8, height: 8, bits: seq![0x3Cu8, 0x42, 0x9D, 0xA5, 0xA5, 0x9E, 0x40, 0x3C] }
}

/// The default item sprite.
pub open spec fn item_view() -> SpriteView {
    SpriteView { width: 8, height: 8, bits: seq![0x00u8, 0x18, 0x3C, 0x7E, 0x7E, 0x3C, 0x18, 0x00] }
}

/// The default hazard sprite.
pub open spec fn hazard_view() -> SpriteView {
    SpriteView { width: 8, height: 8, bits: seq![0x00u8, 0x00, 0x11, 0x11, 0x33, 0x77, 0xFF, 0xFF] }
}

impl Sprite {
    /// A blank (all-paper) sprite of the given size.
    pub fn blank(width: u8, height: u8) -> (s: Sprite)
        ensures
            s@.width == width,
            s@.height == height,
            s@.bits == Seq::new(plane_len_of(width, height) as nat, |i: int| 0u8),
    {
        Sprite { width, height, bits: zeros(bits_len(width, height)) }
    }

    /// Read the pixel at `(x, y)`; `true` = ink. Out-of-range reads as paper.
    pub fn get(&self, x: u8, y: u8) -> (b: bool)
        requires
            x < self.width && y < self.height ==> self@.index_of(x as int, y as int) / 8
                < self.bits@.len(),
        ensures
            b == self@.pixel(x as int, y as int),
    {
        if x >= self.width || y >= self.height {
            return false;
        }
        proof {
            assert(0 <= y as int * self.width as int <= 255 * 255) by (nonlinear_arith)
                requires
                    y < 256,
                    self.width < 256,
            ;
        }
        let idx = y as usize * self.width as usize + x as usize;
        let byte = idx / 8;
        let bit = (7 - (idx % 8)) as u8;
        (self.bits[byte] >> bit) & 1 == 1
    }

    /// Set the pixel at `(x, y)`.
    pub fn set(&mut self, x: u8, y: u8, value: bool)
        requires
            old(self)@.index_of(x as int, y as int) / 8 < old(self).bits@.len(),
        ensures
            final(self).width == old(self).width,
            final(self).height == old(self).height,
            final(self).bits@ == with_bit(
                old(self).bits@,
                old(self)@.index_of(x as int, y as int),
                value,
            ),
    {
        proof {
            assert(0 <= y as int * self.width as int <= 255 * 255) by (nonlinear_arith)
                requires
                    y < 256,
                    self.width < 256,
            ;
        }
        let idx = y as usize * self.width as usize + x as usize;
        let byte = idx / 8;
        let bit = (7 - (idx % 8)) as u8;
        let old_byte = self.bits[byte];
        if value {
            self.bits.set(byte, old_byte | (1u8 << bit));
        } else {
            self.bits.set(byte, old_byte & !(1u8 << bit));
        }
    }

    /// Serialize to the exact on-disk `.spr` bytes.
    pub fn to_bytes(&self) -> (out: Vec<u8>)
        ensures
            out@ == sprite_bytes(self@),
    {
        let mut out: Vec<u8> = Vec::new();
        out.push(SPRITE_MAGIC[0]);
        out.push(SPRITE_MAGIC[1]);
        out.push(SPRITE_VERSION);
        out.push(self.width);
        out.push(self.height);
        append_slice(&mut out, self.bits.as_slice());
        assert(out@ =~= sprite_bytes(self@));
        out
    }

    /// Parse a `.spr` file, enforcing magic, version, bounds, and exact length.
    pub fn from_bytes(data: &[u8]) -> (r: Result<Sprite, SpriteError>)
        ensures
            r is Ok <==> sprite_failure(data@) is None,
            r matches Err(e) ==> e.is_failure(sprite_failure(data@)->0),
            r matches Ok(s) ==> s@ == (SpriteView {
                width: data@[3],
                height: data@[4],
                bits: data@.skip(5),
            }) && s@.wf(),
    {
        if data.len() < SPRITE_HEADER_LEN {
            return Err(SpriteError::ShortHeader(data.len()));
        }
        let magic = [data[0], data[1]];
        if data[0] != SPRITE_MAGIC[0] || data[1] != SPRITE_MAGIC[1] {
            return Err(SpriteError::BadMagic(magic));
        }
        let version = data[2];
        if version != SPRITE_VERSION {
            return Err(SpriteError::UnknownVersion(version));
        }
        let width = data[3];
        let height = data[4];
        if width == 0 || height == 0 {
            return Err(SpriteError::BadDimension { width, height });
        }
        let needed = bits_len(width, height);
        let had = data.len() - SPRITE_HEADER_LEN;
        if had != needed {
            return Err(SpriteError::WrongLength { needed, had });
        }
        let bits = copy_range(data, SPRITE_HEADER_LEN, data.len());
        let s = Sprite { width, height, bits };
        assert(s@.bits =~= data@.skip(5));
        Ok(s)
    }

    /// Build a sprite from row bytes, one byte per row, MSB-first (so
    /// `width <= 8`); bits past `width` in each row byte stay paper. The
    /// height is the row count as a `u8`, so with more than 255 rows (only
    /// possible below width 8) row `y` is drawn onto row `y % 256`.
    pub fn from_rows(width: u8, rows: &[u8]) -> (s: Sprite)
        requires
            width <= 8,
            rows@.len() <= 255 || (width < 8 && rows_fit(width, rows@)),
        ensures
            s@.width == width,
            s@.height as int == rows@.len() % 256,
            s@.wf(),
            width < 8 ==> forall|i: int|
                0 <= i < s@.bits.len() * 8 ==> #[trigger] bit_of(s@.bits, i) == inked_before(
                    rows@,
                    width as int,
                    rows@.len() as int,
                    0,
                    i,
                ),
            rows@.len() <= 255 ==> forall|i: int|
                0 <= i < s@.bits.len() * 8 ==> #[trigger] bit_of(s@.bits, i) == (i < width
                    * rows@.len() && row_pixel(rows@, width as int, i)),
            width == 8 ==> s@.bits == rows@,
    {
        let len = rows.len();
        let h = len as u8;
        proof {
            assert(h as int == len % 256) by (bit_vector)
                requires
                    h == len as u8,
            ;
        }
        let mut s = Sprite::blank(width, h);
        let ghost n = plane_len_of(width, h);
        proof {
            lemma_tiles_bound(width, h);
        }
        if width == 8 {
            assert((8 * h as int + 7) / 8 == h as int);
            let mut y: usize = 0;
            while y < rows.len()
                invariant
                    width == 8,
                    h as int == rows@.len(),
                    s@.width == width,
                    s@.height == h,
                    s@.bits.len() == n,
                    n == rows@.len(),
                    y <= rows@.len(),
                    forall|k: int| 0 <= k < y ==> s@.bits[k] == rows@[k],
                    forall|k: int| y <= k < n ==> s@.bits[k] == 0,
                decreases rows.len() - y,
            {
                let r = rows[y];
                assert(r & 0xFF == r) by (bit_vector);
                s.bits.set(y, r & 0xFF);
                y = y + 1;
            }
            assert(s@.bits =~= rows@);
            assert forall|i: int| 0 <= i < s@.bits.len() * 8 implies #[trigger] bit_of(s@.bits, i)
                == (i < width * rows@.len() && row_pixel(rows@, width as int, i)) by {
                assert(i / 8 == i / (width as int));
                assert(s@.bits.len() * 8 == width * rows@.len());
            }
        } else {
            proof {
                assert forall|i: int| 0 <= i < n * 8 implies #[trigger] bit_of(s@.bits, i)
                    == inked_before(rows@, width as int, 0, 0, i) by {
                    let z = s@.bits[i / 8];
                    assert(z == 0);
                    let k = (7 - i % 8) as u8;
                    assert(((z >> k) & 1u8) == 0u8) by (bit_vector)
                        requires
                            z == 0,
                    ;
                }
            }
            let mut y: usize = 0;
            while y < rows.len()
                invariant
                    width < 8,
                    h as int == rows@.len() % 256,
                    rows@.len() <= 255 || rows_fit(width, rows@),
                    s@.width == width,
                    s@.height == h,
                    s@.bits.len() == n,
                    n == plane_len_of(width, h),
                    y <= rows@.len(),
                    forall|i: int|
                        0 <= i < n * 8 ==> #[trigger] bit_of(s@.bits, i) == inked_before(
                            rows@,
                            width as int,
                            y as int,
                            0,
                            i,
                        ),
                decreases rows.len() - y,
            {
                let r = rows[y];
                let yb = #[verifier::truncate] (y as u8);
                proof {
                    assert(yb as int == y % 256) by (bit_vector)
                        requires
                            yb == y as u8,
                    ;
                }
                let mut x: u8 = 0;
                while x < width
                    invariant
                        width < 8,
                        h as int == rows@.len() % 256,
                        rows@.len() <= 255 || rows_fit(width, rows@),
                        y < rows@.len(),
                        r == rows@[y as int],
                        yb as int == y % 256,
                        s@.width == width,
                        s@.height == h,
                        s@.bits.len() == n,
                        n == plane_len_of(width, h),
                        x <= width,
                        forall|i: int|
                            0 <= i < n * 8 ==> #[trigger] bit_of(s@.bits, i) == inked_before(
                                rows@,
                                width as int,
                                y as int,
                                x as int,
                                i,
                            ),
                    decreases width - x,
                {
                    let bit = 7 - x;
                    let ghost idx = yb * width + x;
                    let set_it = (r >> bit) & 1 == 1;
                    assert(set_it == row_ink(rows@[y as int], x as int));
                    proof {
                        assert forall|i: int| 0 <= i < n * 8 && !(set_it && i == idx) implies
                            inked_before(rows@, width as int, y as int, x + 1, i) == inked_before(
                            rows@,
                            width as int,
                            y as int,
                            x as int,
                            i,
                        ) by {
                            if inked_before(rows@, width as int, y as int, x + 1, i) {
                                let (a, b) = choose|a: int, b: int|
                                    (a < y || (a == y && b < x + 1)) && #[trigger] lands(
                                        rows@,
                                        width as int,
                                        a,
                                        b,
                                        i,
                                    );
                                assert(lands(rows@, width as int, a, b, i));
                            }
                        }
                    }
                    if set_it {
                        proof {
                            if rows@.len() <= 255 {
                                assert(yb as int == y);
                                lemma_byte_in_plane(width, h, x as int, yb as int);
                            } else {
                                assert(row_ink(rows@[y as int], x as int));
                            }
                            assert(lands(rows@, width as int, y as int, x as int, idx));
                        }
                        let ghost before = s@.bits;
                        s.set(x, yb, true);
                        proof {
                            assert forall|i: int| 0 <= i < n * 8 implies #[trigger] bit_of(
                                s@.bits,
                                i,
                            ) == inked_before(rows@, width as int, y as int, x + 1, i) by {
                                lemma_with_bit_bits(before, idx, i, true);
                            }
                        }
                    }
                    x = x + 1;
                }
                proof {
                    assert forall|i: int| 0 <= i < n * 8 implies inked_before(
                        rows@,
                        width as int,
                        y + 1,
                        0,
                        i,
                    ) == inked_before(rows@, width as int, y as int, width as int, i) by {
                        if inked_before(rows@, width as int, y + 1, 0, i) {
                            let (a, b) = choose|a: int, b: int|
                                (a < y + 1 || (a == y + 1 && b < 0)) && #[trigger] lands(
                                    rows@,
                                    width as int,
                                    a,
                                    b,
                                    i,
                                );
                            assert(lands(rows@, width as int, a, b, i));
                        }
                        if inked_before(rows@, width as int, y as int, width as int, i) {
                            let (a, b) = choose|a: int, b: int|
                                (a < y || (a == y && b < width)) && #[trigger] lands(
                                    rows@,
                                    width as int,
                                    a,
                                    b,
                                    i,
                                );
                            assert(lands(rows@, width as int, a, b, i));
                        }
                    }
                }
                y = y + 1;
            }
            proof {
                if rows@.len() <= 255 && width > 0 {
                    assert forall|i: int| 0 <= i < n * 8 implies #[trigger] bit_of(s@.bits, i) == (i
                        < width * rows@.len() && row_pixel(rows@, width as int, i)) by {
                        lemma_inked_is_row_pixel(rows@, width as int, i);
                    }
                }
                if width == 0 {
                    assert(width as int * h as int == 0) by (nonlinear_arith)
                        requires
                            width == 0,
                    ;
                }
            }
        }
        s
    }

    /// Render the sprite as ASCII art: ink `#`, paper `.`, one row per line
    /// (each row newline-terminated).
    pub fn to_ascii(&self) -> (out: String)
        requires
            self@.bits.len() >= plane_len_of(self.width, self.height),
        ensures
            out@ == ascii_art(self@, self.height as int),
    {
        let mut v: Vec<char> = Vec::new();
        let mut y: u8 = 0;
        while y < self.height
            invariant
                self@.bits.len() >= plane_len_of(self.width, self.height),
                y <= self.height,
                v@ == ascii_art(self@, y as int),
            decreases self.height - y,
        {
            let ghost start = v@;
            let mut x: u8 = 0;
            while x < self.width
                invariant
                    self@.bits.len() >= plane_len_of(self.width, self.height),
                    y < self.height,
                    x <= self.width,
                    v@ == start + Seq::new(x as nat, |k: int| if self@.pixel(k, y as int) {
                        '#'
                    } else {
                        '.'
                    }),
                decreases self.width - x,
            {
                proof {
                    lemma_byte_in_plane(self.width, self.height, x as int, y as int);
                }
                let c = if self.get(x, y) {
                    '#'
                } else {
                    '.'
                };
                v.push(c);
                x = x + 1;
                assert(v@ =~= start + Seq::new(x as nat, |k: int| if self@.pixel(k, y as int) {
                    '#'
                } else {
                    '.'
                }));
            }
            v.push('\n');
            y = y + 1;
            assert(v@ =~= ascii_art(self@, y as int));
        }
        string_of(&v)
    }

    /// Default 8×8 wall sprite: a brick pattern (ink = brick, paper = mortar).
    pub fn default_wall() -> (s: Sprite)
        ensures
            s@ == wall_view(),
    {
        let rows: Vec<u8> = vec![0xFF, 0xEE, 0xEE, 0x00, 0xBB, 0xBB, 0x00, 0xFF];
        Sprite::from_rows(8, rows.as_slice())
    }

    /// Default 8×8 floor sprite: near-blank with a small center dot.
    pub fn default_floor() -> (s: Sprite)
        ensures
            s@ == floor_view(),
    {
        let rows: Vec<u8> = vec![0x00, 0x00, 0x00, 0x18, 0x18, 0x00, 0x00, 0x00];
        Sprite::from_rows(8, rows.as_slice())
    }

    /// Default 8×8 player sprite: an `@`-ish figure.
    pub fn default_player() -> (s: Sprite)
        ensures
            s@ == player_view(),
    {
        let rows: Vec<u8> = vec![0x3C, 0x42, 0x9D, 0xA5, 0xA5, 0x9E, 0x40, 0x3C];
        Sprite::from_rows(8, rows.as_slice())
    }

    /// Default 8×8 item sprite: a small gem.
    pub fn default_item() -> (s: Sprite)
        ensures
            s@ == item_view(),
    {
        let rows: Vec<u8> = vec![0x00, 0x18, 0x3C, 0x7E, 0x7E, 0x3C, 0x18, 0x00];
        Sprite::from_rows(8, rows.as_slice())
    }

    /// Default 8×8 hazard sprite: a row of spikes.
    pub fn default_hazard() -> (s: Sprite)
        ensures
            s@ == hazard_view(),
    {
        let rows: Vec<u8> = vec![0x00, 0x00, 0x11, 0x11, 0x33, 0x77, 0xFF, 0xFF];
        Sprite::from_rows(8, rows.as_slice())
    }
}

/// A well-formed sprite with nonzero dimensions reads back from its own bytes
/// unchanged.
pub proof fn lemma_sprite_write_then_read(s: SpriteView)
    requires
        s.wf(),
        s.width >= 1,
        s.height >= 1,
    ensures
        sprite_failure(sprite_bytes(s)) is None,
        sprite_bytes(s)[3] == s.width,
        sprite_bytes(s)[4] == s.height,
        sprite_bytes(s).skip(5) == s.bits,
{
    assert(sprite_bytes(s).skip(5) =~= s.bits);
}

/// The bytes a sprite parses from are exactly the bytes it writes back.
pub proof fn lemma_sprite_read_then_write(d: Seq<u8>)
    requires
        sprite_failure(d) is None,
    ensures
        sprite_bytes(SpriteView { width: d[3], height: d[4], bits: d.skip(5) }) == d,
{
    assert(sprite_bytes(SpriteView { width: d[3], height: d[4], bits: d.skip(5) }) =~= d);
}

/// Setting an in-range pixel makes it read back as set and leaves every other
/// pixel as it was.
pub proof fn lemma_pixel_after_set(s: SpriteView, x: int, y: int, value: bool, x2: int, y2: int)
    requires
        s.wf(),
        0 <= x < s.width,
        0 <= y < s.height,
    ensures
        ({
            let t = SpriteView { bits: with_bit(s.bits, s.index_of(x, y), value), ..s };
            &&& t.pixel(x, y) == value
            &&& (x2 != x || y2 != y) ==> t.pixel(x2, y2) == s.pixel(x2, y2)
        }),
{
    let t = SpriteView { bits: with_bit(s.bits, s.index_of(x, y), value), ..s };
    lemma_byte_in_plane(s.width, s.height, x, y);
    let i = s.index_of(x, y);
    lemma_with_bit_bits(s.bits, i, i, value);
    if 0 <= x2 < s.width && 0 <= y2 < s.height && (x2 != x || y2 != y) {
        lemma_byte_in_plane(s.width, s.height, x2, y2);
        let j = s.index_of(x2, y2);
        assert(j != i) by (nonlinear_arith)
            requires
                j == y2 * s.width + x2,
                i == y * s.width + x,
                0 <= x < s.width,
                0 <= x2 < s.width,
                x2 != x || y2 != y,
        ;
        lemma_with_bit_bits(s.bits, i, j, value);
    }
}

/// The palette: maps the two 1-bit values, per tile role, to `0x00RR_GGBB`
/// colors. Wall and floor paint both values; the item, hazard and player
/// sprites paint only their ink, and the floor shows through their paper.
#[derive(Debug, Clone, Copy, PartialEq, Eq)]
pub struct Palette {
    pub wall_ink: u32,
    pub wall_paper: u32,
    pub floor_ink: u32,
    pub floor_paper: u32,
    /// The item gem's ink; its paper is transparent.
    pub item_ink: u32,
    /// The hazard spikes' ink; their paper is transparent.
    pub hazard_ink: u32,
    /// The player figure's ink; its paper is transparent.
    pub player_ink: u32,
}

impl Default for Palette {
    /// The compiled-in default palette: slate-blue brick on dark mortar, a
    /// faint dot on a near-black floor, a cyan gem, red spikes, an amber player.
    fn default() -> (p: Self)
        ensures
            p == (Palette {
                wall_ink: 0x0025_2B48,
                wall_paper: 0x0012_1628,
                floor_ink: 0x0016_1622,
                floor_paper: 0x000A_0A0F,
                item_ink: 0x0000_E5FF,
                hazard_ink: 0x00FF_3B30,
                player_ink: 0x00FF_B300,
            }),
    {
        Palette {
            wall_ink: 0x0025_2B48,
            wall_paper: 0x0012_1628,
            floor_ink: 0x0016_1622,
            floor_paper: 0x000A_0A0F,
            item_ink: 0x0000_E5FF,
            hazard_ink: 0x00FF_3B30,
            player_ink: 0x00FF_B300,
        }
    }
}

/// The role sprites the renderer needs.
#[derive(Debug, Clone, PartialEq, Eq)]
pub struct Sprites {
    pub wall: Sprite,
    pub floor: Sprite,
    pub item: Sprite,
    pub hazard: Sprite,
    pub player: Sprite,
}

impl Sprites {
    /// Every role sprite is well formed.
    pub open spec fn wf(&self) -> bool {
        &&& self.wall@.wf()
        &&& self.floor@.wf()
        &&& self.item@.wf()
        &&& self.hazard@.wf()
        &&& self.player@.wf()
    }
}

impl Default for Sprites {
    fn default() -> (s: Self)
        ensures
            s.wall@ == wall_view(),
            s.floor@ == floor_view(),
            s.item@ == item_view(),
            s.hazard@ == hazard_view(),
            s.player@ == player_view(),
            s.wf(),
    {
        Sprites {
            wall: Sprite::default_wall(),
            floor: Sprite::default_floor(),
            item: Sprite::default_item(),
            hazard: Sprite::default_hazard(),
            player: Sprite::default_player(),
        }
    }
}

/// The directory `play` looks in for the role sprites.
pub const SPRITE_DIR: &'static str = "sprites";

/// The note for a sprite file that could not be used.
pub open spec fn fallback_note(path: Seq<char>, problem: Seq<char>) -> Seq<char> {
    path + ": "@ + problem + " \u{2014} using built-in default"@
}

/// One role sprite from the bytes read at `path` (`None` when the file could
/// not be read): the parsed sprite, or `fallback` with a note pushed onto
/// `notes` saying why.
pub fn load_one(path: &str, data: Option<&[u8]>, fallback: Sprite, notes: &mut Vec<String>) -> (s:
    Sprite)
    ensures
        match data {
            None => s@ == fallback@ && final(notes)@.len() == old(notes)@.len() + 1
                && final(notes)@.last()@ == fallback_note(path@, "not found"@)
                && final(notes)@.drop_last() == old(notes)@,
            Some(d) => match sprite_failure(d@) {
                None => s@ == (SpriteView {
                    width: d@[3],
                    height: d@[4],
                    bits: d@.skip(5),
                }) && final(notes)@ == old(notes)@,
                Some(f) => s@ == fallback@ && final(notes)@.len() == old(notes)@.len() + 1
                    && final(notes)@.last()@ == fallback_note(path@, failure_text(f))
                    && final(notes)@.drop_last() == old(notes)@,
            },
        },
{
    let mut v: Vec<char> = Vec::new();
    push_str(&mut v, path);
    push_str(&mut v, ": ");
    match data {
        None => {
            push_str(&mut v, "not found");
        },
        Some(d) => {
            match Sprite::from_bytes(d) {
                Ok(s) => {
                    return s;
                },
                Err(e) => {
                    let m = e.message();
                    push_str(&mut v, m.as_str());
                },
            }
        },
    }
    push_str(&mut v, " \u{2014} using built-in default");
    let ghost before = notes@;
    notes.push(string_of(&v));
    assert(notes@.drop_last() =~= before);
    fallback
}

} // verus!
