//! bit-maze `.bm` level format v1: parse and write.
//!
//! An 8-byte header, then `planes` bitplanes (MSB-first, row-major), then an
//! optional byte-per-tile trigger plane and an optional script table. All
//! multibyte integers are little-endian; bit 7 of a plane byte is the leftmost
//! tile of its group of 8.
use vstd::prelude::*;

use crate::bytes::{append_slice, copy_range, lemma_split, zeros};
use crate::text::{dec, hex_0x, push_dec, push_hex_0x, push_str, string_of};



verus! {

/// Magic bytes at offset 0: ASCII `"BM"`.
pub const MAGIC: [u8; 2] = [0x42, 0x4D];

/// The only format version this build understands.
pub const VERSION: u8 = 1;

/// Fixed header size in bytes.
pub const HEADER_LEN: usize = 8;

/// `flags` bit0: a byte trigger plane follows the bitplanes.
pub const FLAG_TRIGGERS: u8 = 0b0000_0001;

/// `flags` bit1: a script table follows the trigger plane.
pub const FLAG_SCRIPTS: u8 = 0b0000_0010;

/// `flags` bits 2..=7: reserved, must be 0 in v1.
pub const RESERVED_FLAGS: u8 = 0b1111_1100;

/// A single trigger script stored in the level's script table.
#[derive(Debug, Clone, PartialEq, Eq)]
pub struct Script {
    /// Trigger id (1..=255); trigger-plane bytes index scripts by this id.
    pub id: u8,
    /// Raw BitVM bytecode, stored faithfully.
    pub bytes: Vec<u8>,
}

/// A fully-parsed level. Owns all plane data.
#[derive(Debug, Clone, PartialEq, Eq)]
pub struct Level {
    pub width: u8,
    pub height: u8,
    /// One entry per bitplane; each is `ceil(width*height/8)` bytes.
    /// Plane 0 is always WALLS (1 = wall, 0 = floor).
    pub planes: Vec<Vec<u8>>,
    /// Byte-per-tile trigger plane, `width*height` bytes, iff present.
    pub triggers: Option<Vec<u8>>,
    /// Script table, iff present.
    pub scripts: Option<Vec<Script>>,
}

/// The mathematical content of a [`Script`].
pub struct ScriptView {
    pub id: u8,
    pub bytes: Seq<u8>,
}

/// The mathematical content of a [`Level`]: plain sequences of bytes.
pub struct LevelView {
    pub width: u8,
    pub height: u8,
    pub planes: Seq<Seq<u8>>,
    pub triggers: Option<Seq<u8>>,
    pub scripts: Option<Seq<ScriptView>>,
}

impl View for Script {
    type V = ScriptView;

    open spec fn view(&self) -> ScriptView {
        ScriptView { id: self.id, bytes: self.bytes@ }
    }
}

pub open spec fn opt_bytes_view(t: Option<Vec<u8>>) -> Option<Seq<u8>> {
    match t {
        Some(v) => Some(v@),
        None => None,
    }
}

pub open spec fn opt_scripts_view(s: Option<Vec<Script>>) -> Option<Seq<ScriptView>> {
    match s {
        Some(v) => Some(v@.map_values(|sc: Script| sc@)),
        None => None,
    }
}

impl View for Level {
    type V = LevelView;

    open spec fn view(&self) -> LevelView {
        LevelView {
            width: self.width,
            height: self.height,
            planes: self.planes@.map_values(|p: Vec<u8>| p@),
            triggers: opt_bytes_view(self.triggers),
            scripts: opt_scripts_view(self.scripts),
        }
    }
}

/// `std::io::Error`, carried opaquely by [`BmError::Io`].
#[verifier::external_type_specification]
#[verifier::external_body]
pub struct ExIoError(std::io::Error);

/// Everything that can go wrong loading or validating a `.bm` file.
#[derive(Debug)]
pub enum BmError {
    Io(std::io::Error),
    /// Header shorter than 8 bytes.
    ShortHeader(usize),
    /// Magic did not match. Carries the two bytes seen so we can spot `MB`.
    BadMagic([u8; 2]),
    UnknownVersion(u8),
    /// `reserved` header byte was nonzero.
    BadReserved(u8),
    /// A reserved `flags` bit (bits 2..=7) was set. Carries the flags byte.
    ReservedFlags(u8),
    /// width or height was 0 (valid range is 1..=255).
    BadDimension { width: u8, height: u8 },
    /// `planes` was 0 (at least the walls plane is required).
    NoPlanes,
    /// File ended before an expected field could be read.
    Truncated { needed: usize, had: usize, what: &'static str },
    /// A script table declared more bytes than the file contained.
    TruncatedScript { id: u8 },
    /// Trailing bytes remained after a complete parse.
    TrailingBytes { extra: usize },
}

/// Which part of the file a truncation was found in.
pub enum Section {
    Bitplane,
    TriggerPlane,
    ScriptCount,
    ScriptHeader,
}

/// A parse failure as plain values: the loader's errors, I/O aside.
pub enum ParseFailure {
    ShortHeader(int),
    BadMagic(u8, u8),
    UnknownVersion(u8),
    BadReserved(u8),
    ReservedFlags(u8),
    BadDimension(u8, u8),
    NoPlanes,
    Truncated(int, int, Section),
    TruncatedScript(u8),
    TrailingBytes(int),
}

/// The text of a `.bm` loading error other than an I/O failure.
pub open spec fn bm_error_text(e: BmError) -> Seq<char> {
    match e {
        BmError::Io(_) => "I/O error: "@,
        BmError::ShortHeader(n) => "file too short: "@ + dec(n as nat) + " bytes, need at least "@
            + dec(HEADER_LEN as nat) + " for the header"@,
        BmError::BadMagic(m) => if m@[0] == 0x4D && m@[1] == 0x42 {
            "bad magic "@ + hex_0x(m@[0]) + " "@ + hex_0x(m@[1])
                + ": this looks like byte-swapped \"MB\" \u{2014} the format is little-endian, expected \"BM\" ("@
                + hex_0x(0x42) + " "@ + hex_0x(0x4D) + ")"@
        } else {
            "bad magic "@ + hex_0x(m@[0]) + " "@ + hex_0x(m@[1])
                + ": not a bit-maze file (expected \"BM\" "@ + hex_0x(0x42) + " "@ + hex_0x(0x4D)
                + ")"@
        },
        BmError::UnknownVersion(v) => "unknown format version "@ + dec(v as nat)
            + ": this build only understands version "@ + dec(VERSION as nat),
        BmError::BadReserved(r) => "reserved header byte must be 0 in v1, found "@ + hex_0x(r),
        BmError::ReservedFlags(f) => "reserved flag bits must be 0 in v1, found flags "@ + hex_0x(f)
            + " (only bit0 = triggers and bit1 = scripts are defined)"@,
        BmError::BadDimension { width, height } => "dimensions "@ + dec(width as nat) + "x"@ + dec(
            height as nat,
        ) + " out of range: width and height must be 1..=255"@,
        BmError::NoPlanes => "planes=0: a level needs at least the walls plane"@,
        BmError::Truncated { needed, had, what } => "truncated file: needed "@ + dec(
            needed as nat,
        ) + " bytes for "@ + what@ + ", only "@ + dec(had as nat) + " remain"@,
        BmError::TruncatedScript { id } => "truncated script table: script id "@ + dec(id as nat)
            + " declares more bytes than remain in the file"@,
        BmError::TrailingBytes { extra } => dec(extra as nat)
            + " trailing byte(s) after a complete level: file is longer than its declared contents"@,
    }
}

/// What `std::io::Error` displays as (its text comes from the operating
/// system, so nothing is promised of it here).
#[verifier::external_body]
fn io_error_text(e: &std::io::Error) -> (s: String) {
    e.to_string()
}

impl BmError {
    /// The error as text. An I/O failure reads `I/O error: ` followed by the
    /// system's description; every other error names what was found and
    /// what was expected.
    pub fn message(&self) -> (s: String)
        ensures
            !(self is Io) ==> s@ == bm_error_text(*self),
            self is Io ==> s@.len() >= 11 && s@.take(11) == "I/O error: "@,
    {
        let mut v: Vec<char> = Vec::new();
        match self {
            BmError::Io(e) => {
                proof {
                    reveal_strlit("I/O error: ");
                }
                push_str(&mut v, "I/O error: ");
                let t = io_error_text(e);
                push_str(&mut v, t.as_str());
                assert(v@.take(11) =~= "I/O error: "@);
            },
            BmError::ShortHeader(n) => {
                push_str(&mut v, "file too short: ");
                push_dec(&mut v, *n as u64);
                push_str(&mut v, " bytes, need at least ");
                push_dec(&mut v, HEADER_LEN as u64);
                push_str(&mut v, " for the header");
            },
            BmError::BadMagic(m) => {
                push_str(&mut v, "bad magic ");
                push_hex_0x(&mut v, m[0]);
                push_str(&mut v, " ");
                push_hex_0x(&mut v, m[1]);
                if m[0] == MAGIC[1] && m[1] == MAGIC[0] {
                    push_str(
                        &mut v,
                        ": this looks like byte-swapped \"MB\" \u{2014} the format is little-endian, expected \"BM\" (",
                    );
                    push_hex_0x(&mut v, MAGIC[0]);
                    push_str(&mut v, " ");
                    push_hex_0x(&mut v, MAGIC[1]);
                    push_str(&mut v, ")");
                } else {
                    push_str(&mut v, ": not a bit-maze file (expected \"BM\" ");
                    push_hex_0x(&mut v, MAGIC[0]);
                    push_str(&mut v, " ");
                    push_hex_0x(&mut v, MAGIC[1]);
                    push_str(&mut v, ")");
                }
            },
            BmError::UnknownVersion(ver) => {
                push_str(&mut v, "unknown format version ");
                push_dec(&mut v, *ver as u64);
                push_str(&mut v, ": this build only understands version ");
                push_dec(&mut v, VERSION as u64);
            },
            BmError::BadReserved(r) => {
                push_str(&mut v, "reserved header byte must be 0 in v1, found ");
                push_hex_0x(&mut v, *r);
            },
            BmError::ReservedFlags(f) => {
                push_str(&mut v, "reserved flag bits must be 0 in v1, found flags ");
                push_hex_0x(&mut v, *f);
                push_str(&mut v, " (only bit0 = triggers and bit1 = scripts are defined)");
            },
            BmError::BadDimension { width, height } => {
                push_str(&mut v, "dimensions ");
                push_dec(&mut v, *width as u64);
                push_str(&mut v, "x");
                push_dec(&mut v, *height as u64);
                push_str(&mut v, " out of range: width and height must be 1..=255");
            },
            BmError::NoPlanes => {
                push_str(&mut v, "planes=0: a level needs at least the walls plane");
            },
            BmError::Truncated { needed, had, what } => {
                push_str(&mut v, "truncated file: needed ");
                push_dec(&mut v, *needed as u64);
                push_str(&mut v, " bytes for ");
                push_str(&mut v, *what);
                push_str(&mut v, ", only ");
                push_dec(&mut v, *had as u64);
                push_str(&mut v, " remain");
            },
            BmError::TruncatedScript { id } => {
                push_str(&mut v, "truncated script table: script id ");
                push_dec(&mut v, *id as u64);
                push_str(&mut v, " declares more bytes than remain in the file");
            },
            BmError::TrailingBytes { extra } => {
                push_dec(&mut v, *extra as u64);
                push_str(
                    &mut v,
                    " trailing byte(s) after a complete level: file is longer than its declared contents",
                );
            },
        }
        string_of(&v)
    }
}

impl From<std::io::Error> for BmError {
    fn from(e: std::io::Error) -> (r: BmError)
        ensures
            r == BmError::Io(e),
    {
        BmError::Io(e)
    }
}

impl vstd::std_specs::convert::FromSpecImpl<std::io::Error> for BmError {
    open spec fn obeys_from_spec() -> bool {
        true
    }

    open spec fn from_spec(v: std::io::Error) -> BmError {
        BmError::Io(v)
    }
}

pub open spec fn section_text(s: Section) -> &'static str {
    match s {
        Section::Bitplane => "a bitplane",
        Section::TriggerPlane => "the trigger plane",
        Section::ScriptCount => "the script count",
        Section::ScriptHeader => "a script header",
    }
}

impl BmError {
    /// This error is the given failure.
    pub open spec fn is_failure(&self, f: ParseFailure) -> bool {
        match f {
            ParseFailure::ShortHeader(n) => self matches BmError::ShortHeader(m) && m == n,
            ParseFailure::BadMagic(a, b) => self matches BmError::BadMagic(m) && m@ == seq![a, b],
            ParseFailure::UnknownVersion(v) => self matches BmError::UnknownVersion(w) && w == v,
            ParseFailure::BadReserved(r) => self matches BmError::BadReserved(q) && q == r,
            ParseFailure::ReservedFlags(f) => self matches BmError::ReservedFlags(g) && g == f,
            ParseFailure::BadDimension(w, h) => self matches BmError::BadDimension {
                width,
                height,
            } && width == w && height == h,
            ParseFailure::NoPlanes => self matches BmError::NoPlanes,
            ParseFailure::Truncated(n, h, s) => self matches BmError::Truncated {
                needed,
                had,
                what,
            } && needed == n && had == h && what@ == section_text(s)@,
            ParseFailure::TruncatedScript(i) => self matches BmError::TruncatedScript { id } && id
                == i,
            ParseFailure::TrailingBytes(e) => self matches BmError::TrailingBytes { extra } && extra
                == e,
        }
    }
}

/// Tiles of a `width`×`height` level.
pub open spec fn tiles_of(width: u8, height: u8) -> int {
    width as int * height as int
}

/// Bytes of one bitplane: `ceil(width*height/8)`.
pub open spec fn plane_len_of(width: u8, height: u8) -> int {
    (tiles_of(width, height) + 7) / 8
}

/// The bit for tile index `idx` in a plane: MSB-first within each byte.
pub open spec fn bit_of(data: Seq<u8>, idx: int) -> bool {
    ((data[idx / 8] >> ((7 - idx % 8) as u8)) & 1u8) == 1u8
}

/// A byte with bit `bit` (0 = LSB) set or cleared.
pub open spec fn byte_with_bit(b: u8, bit: u8, value: bool) -> u8 {
    if value {
        b | (1u8 << bit)
    } else {
        b & !(1u8 << bit)
    }
}

/// `data` with the bit of tile index `idx` set to `value`.
pub open spec fn with_bit(data: Seq<u8>, idx: int, value: bool) -> Seq<u8> {
    data.update(idx / 8, byte_with_bit(data[idx / 8], (7 - idx % 8) as u8, value))
}

/// Concatenation of a sequence of byte strings, in order.
pub open spec fn concat(ps: Seq<Seq<u8>>) -> Seq<u8>
    decreases ps.len(),
{
    if ps.len() == 0 {
        seq![]
    } else {
        concat(ps.drop_last()) + ps.last()
    }
}

/// The little-endian encoding of a script length, truncated to `u16`.
pub open spec fn len_le(n: int) -> Seq<u8> {
    let v = n as u16;
    seq![(v % 256) as u8, (v / 256) as u8]
}

/// One script table entry: id, `u16` LE length, bytes.
pub open spec fn script_bytes(s: ScriptView) -> Seq<u8> {
    seq![s.id] + len_le(s.bytes.len() as int) + s.bytes
}

/// All script table entries, in order.
pub open spec fn scripts_bytes(ss: Seq<ScriptView>) -> Seq<u8>
    decreases ss.len(),
{
    if ss.len() == 0 {
        seq![]
    } else {
        scripts_bytes(ss.drop_last()) + script_bytes(ss.last())
    }
}

impl LevelView {
    pub open spec fn tiles(self) -> int {
        tiles_of(self.width, self.height)
    }

    pub open spec fn plane_len(self) -> int {
        plane_len_of(self.width, self.height)
    }

    /// The flags byte derived from which optional sections are present.
    pub open spec fn flags(self) -> u8 {
        ((if self.triggers is Some {
            1u8
        } else {
            0u8
        }) + (if self.scripts is Some {
            2u8
        } else {
            0u8
        })) as u8
    }

    /// Tile index of `(x, y)`: row-major.
    pub open spec fn index_of(self, x: int, y: int) -> int {
        y * self.width + x
    }

    /// The bit at `(x, y)` in plane `plane`; `false` when out of range.
    pub open spec fn bit(self, plane: int, x: int, y: int) -> bool {
        if x < 0 || y < 0 || x >= self.width || y >= self.height || plane < 0 || plane
            >= self.planes.len() {
            false
        } else {
            bit_of(self.planes[plane], self.index_of(x, y))
        }
    }

    /// Whether the byte holding tile `(x, y)` of plane `plane` is present.
    pub open spec fn has_byte(self, plane: int, x: int, y: int) -> bool {
        0 <= x < self.width && 0 <= y < self.height && 0 <= plane < self.planes.len()
            && self.index_of(x, y) / 8 < self.planes[plane].len()
    }

    /// The bit at `(x, y)` in plane `plane`; `false` when out of range or
    /// when the plane is too short to hold it.
    pub open spec fn bit_checked(self, plane: int, x: int, y: int) -> bool {
        self.has_byte(plane, x, y) && bit_of(self.planes[plane], self.index_of(x, y))
    }

    /// This level with the bit at `(x, y)` in plane `plane` set to `value`.
    pub open spec fn with_bit(self, plane: int, x: int, y: int, value: bool) -> LevelView {
        LevelView {
            planes: self.planes.update(
                plane,
                with_bit(self.planes[plane], self.index_of(x, y), value),
            ),
            ..self
        }
    }

    /// Every bitplane holds `plane_len()` bytes and the trigger plane, if
    /// any, one byte per tile: what reading every tile of the level needs.
    pub open spec fn sections_sized(self) -> bool {
        &&& forall|i: int| 0 <= i < self.planes.len() ==> #[trigger] self.planes[i].len()
            == self.plane_len()
        &&& (self.triggers matches Some(t) ==> t.len() == self.tiles())
    }

    /// Every invariant a `.bm` v1 file can express.
    pub open spec fn wf(self) -> bool {
        &&& 1 <= self.width
        &&& 1 <= self.height
        &&& 1 <= self.planes.len() <= 255
        &&& forall|i: int| 0 <= i < self.planes.len() ==> #[trigger] self.planes[i].len()
            == self.plane_len()
        &&& (self.triggers matches Some(t) ==> t.len() == self.tiles())
        &&& (self.scripts matches Some(s) ==> {
            &&& s.len() <= 255
            &&& forall|i: int| 0 <= i < s.len() ==> #[trigger] s[i].bytes.len() <= 0xFFFF
        })
    }
}

/// The 8-byte header of a level.
pub open spec fn header_bytes(l: LevelView) -> Seq<u8> {
    seq![0x42u8, 0x4Du8, 1u8, l.flags(), l.width, l.height, l.planes.len() as u8, 0u8]
}

/// The trigger plane section.
pub open spec fn trigger_section(t: Option<Seq<u8>>) -> Seq<u8> {
    match t {
        Some(t) => t,
        None => seq![],
    }
}

/// The script table section: a `u8` count, then the entries.
pub open spec fn script_section(s: Option<Seq<ScriptView>>) -> Seq<u8> {
    match s {
        Some(s) => seq![s.len() as u8] + scripts_bytes(s),
        None => seq![],
    }
}

/// The exact on-disk bytes of a level.
pub open spec fn level_bytes(l: LevelView) -> Seq<u8> {
    header_bytes(l) + concat(l.planes) + trigger_section(l.triggers) + script_section(l.scripts)
}

/// Scan `k` script table entries starting at `cursor`: the end offset, or the failure.
pub open spec fn scan_scripts(d: Seq<u8>, cursor: int, k: nat) -> Result<int, ParseFailure>
    decreases k,
{
    if k == 0 {
        Ok(cursor)
    } else if cursor + 3 > d.len() {
        Err(ParseFailure::Truncated(3, d.len() - cursor, Section::ScriptHeader))
    } else {
        let len = d[cursor + 1] as int + 256 * d[cursor + 2] as int;
        if cursor + 3 + len > d.len() {
            Err(ParseFailure::TruncatedScript(d[cursor]))
        } else {
            scan_scripts(d, cursor + 3 + len, (k - 1) as nat)
        }
    }
}

/// The first thing wrong with `d` as a `.bm` file, in the loader's order of checks.
pub open spec fn parse_failure(d: Seq<u8>) -> Option<ParseFailure> {
    if d.len() < 8 {
        Some(ParseFailure::ShortHeader(d.len() as int))
    } else if d[0] != 0x42 || d[1] != 0x4D {
        Some(ParseFailure::BadMagic(d[0], d[1]))
    } else if d[2] != 1 {
        Some(ParseFailure::UnknownVersion(d[2]))
    } else if d[7] != 0 {
        Some(ParseFailure::BadReserved(d[7]))
    } else if d[3] & 0xFCu8 != 0 {
        Some(ParseFailure::ReservedFlags(d[3]))
    } else if d[4] == 0 || d[5] == 0 {
        Some(ParseFailure::BadDimension(d[4], d[5]))
    } else if d[6] == 0 {
        Some(ParseFailure::NoPlanes)
    } else {
        let plen = plane_len_of(d[4], d[5]);
        let tiles = tiles_of(d[4], d[5]);
        if 8 + d[6] * plen > d.len() {
            let cursor = 8 + ((d.len() - 8) / plen) * plen;
            Some(ParseFailure::Truncated(plen, d.len() - cursor, Section::Bitplane))
        } else {
            let c1 = 8 + d[6] * plen;
            let trig = d[3] & 1u8 != 0;
            if trig && c1 + tiles > d.len() {
                Some(ParseFailure::Truncated(tiles, d.len() - c1, Section::TriggerPlane))
            } else {
                let c2 = if trig {
                    c1 + tiles
                } else {
                    c1
                };
                if d[3] & 2u8 != 0 {
                    if c2 >= d.len() {
                        Some(ParseFailure::Truncated(1, 0, Section::ScriptCount))
                    } else {
                        match scan_scripts(d, c2 + 1, d[c2] as nat) {
                            Err(f) => Some(f),
                            Ok(end) => if end != d.len() {
                                Some(ParseFailure::TrailingBytes(d.len() - end))
                            } else {
                                None
                            },
                        }
                    }
                } else if c2 != d.len() {
                    Some(ParseFailure::TrailingBytes(d.len() - c2))
                } else {
                    None
                }
            }
        }
    }
}

/// A level has at most 255 × 255 tiles.
pub proof fn lemma_tiles_bound(width: u8, height: u8)
    ensures
        0 <= tiles_of(width, height) <= 65025,
        0 <= width as int * height as int <= 65025,
{
    assert(0 <= width as int * height as int <= 65025) by (nonlinear_arith)
        requires
            width <= 255,
            height <= 255,
    ;
}

/// A tile index `y*w + x` of an in-range tile is below `w*h`.
pub proof fn lemma_index_in_range(width: u8, height: u8, x: int, y: int)
    requires
        0 <= x < width,
        0 <= y < height,
    ensures
        0 <= y * width + x < tiles_of(width, height),
{
    assert(0 <= y * width + x < width as int * height as int) by (nonlinear_arith)
        requires
            0 <= x < width,
            0 <= y < height,
    ;
}

/// The byte of an in-range tile lies inside a full-size plane.
pub proof fn lemma_byte_in_plane(width: u8, height: u8, x: int, y: int)
    requires
        0 <= x < width,
        0 <= y < height,
    ensures
        0 <= (y * width + x) / 8 < plane_len_of(width, height),
{
    lemma_index_in_range(width, height, x, y);
}

/// Tiles of a `width`×`height` level, as a machine integer.
pub fn tiles(width: u8, height: u8) -> (n: usize)
    ensures
        n == tiles_of(width, height),
        n <= 65025,
{
    proof {
        lemma_tiles_bound(width, height);
    }
    width as usize * height as usize
}

/// Bytes needed for one bitplane of `width`×`height` tiles: `ceil(w*h/8)`.
pub fn plane_len(width: u8, height: u8) -> (n: usize)
    ensures
        n == plane_len_of(width, height),
{
    let tiles = tiles(width, height);
    (tiles + 7) / 8
}

/// The first plane that does not fit starts at `8 + ((len - 8) / plen) * plen`.
pub proof fn lemma_first_short_plane(rest: int, plen: int, i: int, count: int)
    requires
        1 <= plen,
        0 <= i < count,
        i * plen <= rest,
        rest - i * plen < plen,
    ensures
        rest / plen == i,
        rest < count * plen,
{
    assert(rest / plen == i) by (nonlinear_arith)
        requires
            1 <= plen,
            0 <= i,
            i * plen <= rest,
            rest - i * plen < plen,
    ;
    assert(rest < count * plen) by (nonlinear_arith)
        requires
            1 <= plen,
            i < count,
            rest - i * plen < plen,
    ;
}

/// `concat` grows by one element at a time.
pub proof fn lemma_concat_push(ps: Seq<Seq<u8>>, i: int)
    requires
        0 <= i < ps.len(),
    ensures
        concat(ps.take(i + 1)) == concat(ps.take(i)) + ps[i],
{
    assert(ps.take(i + 1).drop_last() == ps.take(i));
}

/// `scripts_bytes` grows by one entry at a time.
pub proof fn lemma_scripts_push(ss: Seq<ScriptView>, i: int)
    requires
        0 <= i < ss.len(),
    ensures
        scripts_bytes(ss.take(i + 1)) == scripts_bytes(ss.take(i)) + script_bytes(ss[i]),
{
    assert(ss.take(i + 1).drop_last() == ss.take(i));
}

impl Level {
    /// Number of tiles in this level.
    pub fn tile_count(&self) -> (n: usize)
        ensures
            n == self@.tiles(),
    {
        tiles(self.width, self.height)
    }

    /// Flags byte derived from which optional sections are present.
    pub fn flags(&self) -> (f: u8)
        ensures
            f == self@.flags(),
    {
        let mut flags: u8 = 0;
        if self.triggers.is_some() {
            assert(0u8 | 1u8 == 1u8) by (bit_vector);
            flags |= FLAG_TRIGGERS;
        }
        if self.scripts.is_some() {
            assert(0u8 | 2u8 == 2u8 && 1u8 | 2u8 == 3u8) by (bit_vector);
            flags |= FLAG_SCRIPTS;
        }
        flags
    }

    /// Read bit at `(x, y)` in plane `plane`. Returns false if out of range.
    pub fn get_bit(&self, plane: usize, x: u8, y: u8) -> (b: bool)
        requires
            x < self.width && y < self.height && plane < self.planes.len() ==> self@.index_of(
                x as int,
                y as int,
            ) / 8 < self@.planes[plane as int].len(),
        ensures
            b == self@.bit(plane as int, x as int, y as int),
    {
        if x >= self.width || y >= self.height {
            return false;
        }
        if plane >= self.planes.len() {
            return false;
        }
        let data = &self.planes[plane];
        proof {
            lemma_index_in_range(self.width, self.height, x as int, y as int);
            lemma_tiles_bound(self.width, self.height);
        }
        let idx = y as usize * self.width as usize + x as usize;
        let byte = idx / 8;
        let bit = (7 - (idx % 8)) as u8;  // MSB-first
        (data[byte] >> bit) & 1 == 1
    }

    /// Set bit at `(x, y)` in plane `plane` to `value`.
    pub fn set_bit(&mut self, plane: usize, x: u8, y: u8, value: bool)
        requires
            plane < old(self).planes.len(),
            old(self)@.index_of(x as int, y as int) / 8 < old(self)@.planes[plane as int].len(),
        ensures
            final(self)@ =~~= old(self)@.with_bit(plane as int, x as int, y as int, value),
    {
        let ghost before = self@;
        let ghost planes_before = self.planes@;
        let width = self.width as usize;
        proof {
            assert(0 <= y as int * width as int <= 65025) by (nonlinear_arith)
                requires
                    y <= 255,
                    width <= 255,
            ;
        }
        let idx = y as usize * width + x as usize;
        let byte = idx / 8;
        let bit = (7 - (idx % 8)) as u8;  // MSB-first
        let mut data: Vec<u8> = Vec::new();
        std::mem::swap(&mut data, &mut self.planes[plane]);
        let old_byte = data[byte];
        if value {
            data.set(byte, old_byte | (1u8 << bit));
        } else {
            data.set(byte, old_byte & !(1u8 << bit));
        }
        let ghost new_data = data@;
        std::mem::swap(&mut data, &mut self.planes[plane]);
        proof {
            assert(new_data == with_bit(before.planes[plane as int], idx as int, value));
            assert(self.planes@.map_values(|p: Vec<u8>| p@) =~= planes_before.map_values(
                |p: Vec<u8>| p@,
            ).update(plane as int, new_data));
        }
    }

    /// Build an empty (all-floor) walls-only level of the given size.
    pub fn blank(width: u8, height: u8) -> (l: Level)
        ensures
            l@ =~~= (LevelView {
                width,
                height,
                planes: seq![Seq::new(plane_len_of(width, height) as nat, |i: int| 0u8)],
                triggers: None,
                scripts: None,
            }),
    {
        let plen = plane_len(width, height);
        let mut planes: Vec<Vec<u8>> = Vec::new();
        planes.push(zeros(plen));
        let l = Level { width, height, planes, triggers: None, scripts: None };
        assert(l@.planes =~= seq![Seq::new(plane_len_of(width, height) as nat, |i: int| 0u8)]);
        l
    }

    /// Serialize this level to its exact on-disk byte representation.
    pub fn to_bytes(&self) -> (out: Vec<u8>)
        ensures
            out@ == level_bytes(self@),
    {
        let ghost l = self@;
        let mut out: Vec<u8> = Vec::new();
        out.push(MAGIC[0]);
        out.push(MAGIC[1]);
        out.push(VERSION);
        out.push(self.flags());
        out.push(self.width);
        out.push(self.height);
        out.push(self.planes.len() as u8);
        out.push(0);  // reserved
        assert(out@ == header_bytes(l));
        let mut i: usize = 0;
        while i < self.planes.len()
            invariant
                l == self@,
                i <= self.planes.len(),
                out@ == header_bytes(l) + concat(l.planes.take(i as int)),
            decreases self.planes.len() - i,
        {
            append_slice(&mut out, self.planes[i].as_slice());
            proof {
                lemma_concat_push(l.planes, i as int);
            }
            i = i + 1;
        }
        assert(l.planes.take(i as int) == l.planes);
        if let Some(triggers) = &self.triggers {
            append_slice(&mut out, triggers.as_slice());
        }
        assert(out@ == header_bytes(l) + concat(l.planes) + trigger_section(l.triggers));
        if let Some(scripts) = &self.scripts {
            let ghost ss = l.scripts->0;
            let ghost before = out@;
            out.push(scripts.len() as u8);
            let mut j: usize = 0;
            while j < scripts.len()
                invariant
                    l == self@,
                    self.scripts == Some(*scripts),
                    ss == scripts@.map_values(|sc: Script| sc@),
                    j <= scripts.len(),
                    out@ == before + seq![scripts.len() as u8] + scripts_bytes(ss.take(j as int)),
                decreases scripts.len() - j,
            {
                let s = &scripts[j];
                let n = s.bytes.len();
                out.push(s.id);
                out.push(((n as u16) % 256) as u8);
                out.push(((n as u16) / 256) as u8);
                append_slice(&mut out, s.bytes.as_slice());
                proof {
                    lemma_scripts_push(ss, j as int);
                    assert(script_bytes(ss[j as int]) == seq![s.id] + len_le(n as int) + s.bytes@);
                }
                j = j + 1;
            }
            assert(ss.take(j as int) == ss);
        }
        out
    }

    /// Parse a level from raw file bytes, enforcing every v1 invariant.
    pub fn from_bytes(data: &[u8]) -> (r: Result<Level, BmError>)
        ensures
            r is Ok <==> parse_failure(data@) is None,
            r matches Err(e) ==> e.is_failure(parse_failure(data@)->0),
            r matches Ok(l) ==> l@.wf() && level_bytes(l@) == data@,
    {
        if data.len() < HEADER_LEN {
            return Err(BmError::ShortHeader(data.len()));
        }
        let magic = [data[0], data[1]];
        if data[0] != MAGIC[0] || data[1] != MAGIC[1] {
            return Err(BmError::BadMagic(magic));
        }
        let version = data[2];
        if version != VERSION {
            return Err(BmError::UnknownVersion(version));
        }
        let flags = data[3];
        let width = data[4];
        let height = data[5];
        let planes_count = data[6];
        let reserved = data[7];

        if reserved != 0 {
            return Err(BmError::BadReserved(reserved));
        }
        if flags & RESERVED_FLAGS != 0 {
            return Err(BmError::ReservedFlags(flags));
        }
        if width == 0 || height == 0 {
            return Err(BmError::BadDimension { width, height });
        }
        if planes_count == 0 {
            return Err(BmError::NoPlanes);
        }
        let ghost d = data@;
        let plen = plane_len(width, height);
        proof {
            lemma_tiles_bound(width, height);
            assert(width as int * height as int >= 1) by (nonlinear_arith)
                requires
                    width >= 1,
                    height >= 1,
            ;
        }
        let mut cursor: usize = HEADER_LEN;

        // Bitplanes.
        let mut planes: Vec<Vec<u8>> = Vec::new();
        let mut i: u8 = 0;
        while i < planes_count
            invariant
                d == data@,
                d.len() >= 8,
                d[4] == width && d[5] == height && d[6] == planes_count,
                d[0] == 0x42 && d[1] == 0x4D && d[2] == 1 && d[7] == 0 && d[6] != 0,
                d[3] & 0xFCu8 == 0,
                width >= 1 && height >= 1,
                plen == plane_len_of(width, height),
                1 <= plen <= 8129,
                i <= planes_count,
                cursor == 8 + i * plen,
                cursor <= data.len(),
                planes@.len() == i,
                forall|k: int| 0 <= k < i ==> (#[trigger] planes@[k])@.len() == plen,
                concat(planes@.map_values(|p: Vec<u8>| p@)) == d.subrange(8, cursor as int),
            decreases planes_count - i,
        {
            if plen > data.len() - cursor {
                proof {
                    lemma_first_short_plane(d.len() - 8, plen as int, i as int, planes_count as int);
                }
                return Err(
                    BmError::Truncated {
                        needed: plen,
                        had: data.len() - cursor,
                        what: "a bitplane",
                    },
                );
            }
            let end = cursor + plen;
            let plane = copy_range(data, cursor, end);
            let ghost before = planes@.map_values(|p: Vec<u8>| p@);
            planes.push(plane);
            proof {
                let after = planes@.map_values(|p: Vec<u8>| p@);
                assert(after.drop_last() =~= before);
                assert(d.subrange(8, end as int) =~= d.subrange(8, cursor as int) + d.subrange(
                    cursor as int,
                    end as int,
                ));
                assert(end == 8 + (i + 1) * plen) by (nonlinear_arith)
                    requires
                        end == cursor + plen,
                        cursor == 8 + i * plen,
                ;
            }
            cursor = end;
            i = i + 1;
        }
        let ghost c1 = cursor as int;
        let ghost planes_view = planes@.map_values(|p: Vec<u8>| p@);

        // Trigger plane (byte-per-tile).
        let tiles = tiles(width, height);
        let triggers = if flags & FLAG_TRIGGERS != 0 {
            if tiles > data.len() - cursor {
                return Err(
                    BmError::Truncated {
                        needed: tiles,
                        had: data.len() - cursor,
                        what: "the trigger plane",
                    },
                );
            }
            let end = cursor + tiles;
            let t = copy_range(data, cursor, end);
            cursor = end;
            Some(t)
        } else {
            None
        };
        let ghost c2 = cursor as int;

        // Script table.
        let scripts = if flags & FLAG_SCRIPTS != 0 {
            if cursor >= data.len() {
                return Err(BmError::Truncated { needed: 1, had: 0, what: "the script count" });
            }
            let count = data[cursor];
            cursor = cursor + 1;
            let ghost c_start = cursor as int;
            assert(parse_failure(d) == match scan_scripts(d, c_start, count as nat) {
                Err(f) => Some(f),
                Ok(end) => if end != d.len() {
                    Some(ParseFailure::TrailingBytes(d.len() - end))
                } else {
                    None
                },
            });
            let mut scripts: Vec<Script> = Vec::new();
            let mut k: u8 = 0;
            while k < count
                invariant
                    d == data@,
                    parse_failure(d) == match scan_scripts(d, c_start, count as nat) {
                        Err(f) => Some(f),
                        Ok(end) => if end != d.len() {
                            Some(ParseFailure::TrailingBytes(d.len() - end))
                        } else {
                            None
                        },
                    },
                    0 <= c_start <= cursor <= data.len(),
                    k <= count,
                    scan_scripts(d, c_start, count as nat) == scan_scripts(
                        d,
                        cursor as int,
                        (count - k) as nat,
                    ),
                    scripts@.len() == k,
                    forall|j: int| 0 <= j < k ==> (#[trigger] scripts@[j]).bytes@.len() <= 0xFFFF,
                    scripts_bytes(scripts@.map_values(|sc: Script| sc@)) == d.subrange(
                        c_start,
                        cursor as int,
                    ),
                decreases count - k,
            {
                if data.len() - cursor < 3 {
                    assert(scan_scripts(d, cursor as int, (count - k) as nat) == Err::<
                        int,
                        ParseFailure,
                    >(ParseFailure::Truncated(3, d.len() - cursor, Section::ScriptHeader)));
                    return Err(
                        BmError::Truncated {
                            needed: 3,
                            had: data.len() - cursor,
                            what: "a script header",
                        },
                    );
                }
                let id = data[cursor];
                let ghost c0 = cursor as int;
                let len = data[cursor + 1] as usize + 256 * data[cursor + 2] as usize;
                cursor = cursor + 3;
                if len > data.len() - cursor {
                    return Err(BmError::TruncatedScript { id });
                }
                let end = cursor + len;
                let bytes = copy_range(data, cursor, end);
                let ghost before = scripts@.map_values(|sc: Script| sc@);
                let script = Script { id, bytes };
                scripts.push(script);
                proof {
                    let after = scripts@.map_values(|sc: Script| sc@);
                    assert(after.drop_last() =~= before);
                    assert(len_le(len as int) =~= d.subrange(c0 + 1, c0 + 3)) by {
                        assert(len as u16 == len);
                    }
                    assert(script_bytes(after.last()) =~= d.subrange(c0, end as int));
                    assert(c_start <= c0 <= end <= d.len());
                    lemma_split(d, c_start, c0, end as int);
                }
                cursor = end;
                k = k + 1;
            }
            Some(scripts)
        } else {
            None
        };

        if cursor != data.len() {
            return Err(BmError::TrailingBytes { extra: data.len() - cursor });
        }
        let level = Level { width, height, planes, triggers, scripts };
        proof {
            let l = level@;
            assert(l.planes == planes_view);
            assert(flags & 3u8 == (if flags & 1u8 != 0 {
                1u8
            } else {
                0u8
            }) + (if flags & 2u8 != 0 {
                2u8
            } else {
                0u8
            })) by (bit_vector);
            assert(flags & 0xFCu8 == 0 ==> flags & 3u8 == flags) by (bit_vector);
            assert(header_bytes(l) =~= d.subrange(0, 8));
            assert(d =~= d.subrange(0, 8) + d.subrange(
                8,
                c1,
            ) + d.subrange(c1, c2) + d.subrange(c2, d.len() as int));
            assert(trigger_section(l.triggers) =~= d.subrange(c1, c2));
            assert(script_section(l.scripts) =~= d.subrange(c2, d.len() as int));
        }
        Ok(level)
    }
}

} // verus!
