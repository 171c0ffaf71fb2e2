//! bit-maze `.rec` replay format: an input log is a binary file.
//!
//! A run of the game is nothing but a level plus the exact sequence of
//! movement inputs. Because the world is fully deterministic, replaying that
//! sequence against the same level reproduces the exact final state.
//!
//! Layout (v1), all integers little-endian: `magic` `"BR"` (2 bytes),
//! `version` 1, `name_len` (1 byte), the UTF-8 level reference, `move_count`
//! (`u16`), then 2 bits per move, MSB-first, first move in the high bits.
//! Move codes: `00` Up, `01` Down, `10` Left, `11` Right.
use vstd::prelude::*;
use vstd::utf8::{decode_utf8, encode_scalar, encode_utf8, valid_utf8};

use crate::bytes::append_slice;
use crate::text::{dec, hex_0x, push_dec, push_hex_0x, push_str, string_of};
use crate::world::Move;

verus! {

/// Magic bytes at offset 0: ASCII `"BR"` (bit-maze replay).
pub const MAGIC: [u8; 2] = [0x42, 0x52];

/// The only replay format version this build understands.
pub const VERSION: u8 = 1;

/// Fixed prefix before the level name: `magic` 2 + `version` 1 + `name_len` 1.
pub const HEADER_LEN: usize = 4;

/// A decoded replay: the level reference it was recorded against and the
/// exact sequence of moves that were applied.
#[derive(Debug, Clone, PartialEq, Eq)]
pub struct Replay {
    /// The level reference stored at record time (typically the `.bm` path).
    pub level_ref: String,
    /// The recorded moves, in order (only the four directions).
    pub moves: Vec<Move>,
}

/// The mathematical content of a [`Replay`].
pub struct ReplayView {
    pub level_ref: Seq<char>,
    pub moves: Seq<Move>,
}

impl ReplayView {
    /// The name fits its one-byte length field and every move is a direction.
    pub open spec fn recordable(self) -> bool {
        &&& encode_utf8(self.level_ref).len() <= 255
        &&& forall|i: int| 0 <= i < self.moves.len() ==> #[trigger] self.moves[i] != Move::Stay
    }
}

impl View for Replay {
    type V = ReplayView;

    open spec fn view(&self) -> ReplayView {
        ReplayView { level_ref: self.level_ref@, moves: self.moves@ }
    }
}

/// Everything that can go wrong decoding a `.rec` file.
#[derive(Debug)]
pub enum ReplayError {
    /// File shorter than the fixed 4-byte prefix.
    ShortHeader(usize),
    /// Magic did not match. Carries the two bytes seen (spots byte-swapped `"RB"`).
    BadMagic([u8; 2]),
    UnknownVersion(u8),
    /// File ended before a declared field could be read.
    Truncated { needed: usize, had: usize, what: &'static str },
    /// Trailing bytes remained after a complete parse.
    TrailingBytes { extra: usize },
}

/// Which field a truncated replay ran out in.
pub enum ReplayField {
    LevelRef,
    MoveCount,
    PackedMoves,
}

pub open spec fn field_text(f: ReplayField) -> &'static str {
    match f {
        ReplayField::LevelRef => "the level reference",
        ReplayField::MoveCount => "the move count",
        ReplayField::PackedMoves => "the packed moves",
    }
}

/// A replay decoding failure as plain values.
pub enum ReplayFailure {
    ShortHeader(int),
    BadMagic(u8, u8),
    UnknownVersion(u8),
    Truncated(int, int, ReplayField),
    TrailingBytes(int),
}

impl ReplayError {
    /// This error is the given failure.
    pub open spec fn is_failure(&self, f: ReplayFailure) -> bool {
        match f {
            ReplayFailure::ShortHeader(n) => self matches ReplayError::ShortHeader(m) && m == n,
            ReplayFailure::BadMagic(a, b) => self matches ReplayError::BadMagic(m) && m@ == seq![
                a,
                b,
            ],
            ReplayFailure::UnknownVersion(v) => self matches ReplayError::UnknownVersion(w) && w
                == v,
            ReplayFailure::Truncated(n, h, f) => self matches ReplayError::Truncated {
                needed,
                had,
                what,
            } && needed == n && had == h && what@ == field_text(f)@,
            ReplayFailure::TrailingBytes(e) => self matches ReplayError::TrailingBytes { extra }
                && extra == e,
        }
    }
}

/// The text of a replay decoding error.
pub open spec fn replay_error_text(e: ReplayError) -> Seq<char> {
    match e {
        ReplayError::ShortHeader(n) => "replay too short: "@ + dec(n as nat)
            + " bytes, need at least "@ + dec(HEADER_LEN as nat) + " for the header"@,
        ReplayError::BadMagic(m) => if m@[0] == 0x52 && m@[1] == 0x42 {
            "bad replay magic "@ + hex_0x(m@[0]) + " "@ + hex_0x(m@[1])
                + ": looks like byte-swapped \"RB\" \u{2014} expected \"BR\" ("@ + hex_0x(0x42) + " "@
                + hex_0x(0x52) + ")"@
        } else {
            "bad replay magic "@ + hex_0x(m@[0]) + " "@ + hex_0x(m@[1])
                + ": not a bit-maze replay (expected \"BR\" "@ + hex_0x(0x42) + " "@ + hex_0x(0x52)
                + ")"@
        },
        ReplayError::UnknownVersion(v) => "unknown replay version "@ + dec(v as nat)
            + ": this build only understands version "@ + dec(VERSION as nat),
        ReplayError::Truncated { needed, had, what } => "truncated replay: needed "@ + dec(
            needed as nat,
        ) + " bytes for "@ + what@ + ", only "@ + dec(had as nat) + " remain"@,
        ReplayError::TrailingBytes { extra } => dec(extra as nat)
            + " trailing byte(s) after a complete replay"@,
    }
}

impl ReplayError {
    /// The error as text, naming what was found and what was expected.
    pub fn message(&self) -> (s: String)
        ensures
            s@ == replay_error_text(*self),
    {
        let mut v: Vec<char> = Vec::new();
        match self {
            ReplayError::ShortHeader(n) => {
                push_str(&mut v, "replay too short: ");
                push_dec(&mut v, *n as u64);
                push_str(&mut v, " bytes, need at least ");
                push_dec(&mut v, HEADER_LEN as u64);
                push_str(&mut v, " for the header");
            },
            ReplayError::BadMagic(m) => {
                push_str(&mut v, "bad replay magic ");
                push_hex_0x(&mut v, m[0]);
                push_str(&mut v, " ");
                push_hex_0x(&mut v, m[1]);
                if m[0] == MAGIC[1] && m[1] == MAGIC[0] {
                    push_str(&mut v, ": looks like byte-swapped \"RB\" \u{2014} expected \"BR\" (");
                    push_hex_0x(&mut v, MAGIC[0]);
                    push_str(&mut v, " ");
                    push_hex_0x(&mut v, MAGIC[1]);
                    push_str(&mut v, ")");
                } else {
                    push_str(&mut v, ": not a bit-maze replay (expected \"BR\" ");
                    push_hex_0x(&mut v, MAGIC[0]);
                    push_str(&mut v, " ");
                    push_hex_0x(&mut v, MAGIC[1]);
                    push_str(&mut v, ")");
                }
            },
            ReplayError::UnknownVersion(ver) => {
                push_str(&mut v, "unknown replay version ");
                push_dec(&mut v, *ver as u64);
                push_str(&mut v, ": this build only understands version ");
                push_dec(&mut v, VERSION as u64);
            },
            ReplayError::Truncated { needed, had, what } => {
                push_str(&mut v, "truncated replay: needed ");
                push_dec(&mut v, *needed as u64);
                push_str(&mut v, " bytes for ");
                push_str(&mut v, *what);
                push_str(&mut v, ", only ");
                push_dec(&mut v, *had as u64);
                push_str(&mut v, " remain");
            },
            ReplayError::TrailingBytes { extra } => {
                push_dec(&mut v, *extra as u64);
                push_str(&mut v, " trailing byte(s) after a complete replay");
            },
        }
        string_of(&v)
    }
}

/// The 2-bit code of a move; a non-directional input codes as `00`.
pub open spec fn code_of(m: Move) -> int {
    match m {
        Move::Up => 0,
        Move::Down => 1,
        Move::Left => 2,
        Move::Right => 3,
        Move::Stay => 0,
    }
}

/// The direction for a 2-bit code.
pub open spec fn move_of_code(c: int) -> Move {
    if c == 0 {
        Move::Up
    } else if c == 1 {
        Move::Down
    } else if c == 2 {
        Move::Left
    } else {
        Move::Right
    }
}

/// Packed-moves byte length for `count` moves: `ceil(count*2/8)`.
pub open spec fn packed_len_of(count: int) -> int {
    (count + 3) / 4
}

/// The code of move `i`, or `00` past the end.
pub open spec fn code_at(ms: Seq<Move>, i: int) -> int {
    if 0 <= i < ms.len() {
        code_of(ms[i])
    } else {
        0
    }
}

/// Packed byte `k`: four moves, the first in the high bits.
pub open spec fn packed_byte(ms: Seq<Move>, k: int) -> u8 {
    (64 * code_at(ms, 4 * k) + 16 * code_at(ms, 4 * k + 1) + 4 * code_at(ms, 4 * k + 2)
        + code_at(ms, 4 * k + 3)) as u8
}

/// All packed moves.
pub open spec fn pack(ms: Seq<Move>) -> Seq<u8> {
    Seq::new(packed_len_of(ms.len() as int) as nat, |k: int| packed_byte(ms, k))
}

/// The weight of move `i` within its byte.
pub open spec fn weight(i: int) -> int {
    if i % 4 == 0 {
        64
    } else if i % 4 == 1 {
        16
    } else if i % 4 == 2 {
        4
    } else {
        1
    }
}

/// The `count` moves packed in `packed`.
pub open spec fn unpack(packed: Seq<u8>, count: int) -> Seq<Move> {
    Seq::new(count as nat, |i: int| move_of_code((packed[i / 4] as int / weight(i)) % 4))
}

/// The directional moves of `ms`, in order.
pub open spec fn directional(ms: Seq<Move>) -> Seq<Move>
    decreases ms.len(),
{
    if ms.len() == 0 {
        seq![]
    } else if ms.last() == Move::Stay {
        directional(ms.drop_last())
    } else {
        directional(ms.drop_last()).push(ms.last())
    }
}

/// The longest prefix of `s` whose UTF-8 encoding fits in 255 bytes.
pub open spec fn fit_name(s: Seq<char>) -> Seq<char>
    decreases s.len(),
{
    if encode_utf8(s).len() <= 255 || s.len() == 0 {
        s
    } else {
        fit_name(s.drop_last())
    }
}

/// The exact `.rec` bytes of a replay.
pub open spec fn replay_bytes(r: ReplayView) -> Seq<u8> {
    let name = encode_utf8(r.level_ref);
    let count = r.moves.len() as u16;
    seq![0x42u8, 0x52u8, 1u8, name.len() as u8] + name + seq![(count % 256) as u8, (count / 256) as u8]
        + pack(r.moves)
}

/// What `String::from_utf8_lossy` makes of `bytes`.
pub uninterp spec fn utf8_lossy(bytes: Seq<u8>) -> Seq<char>;

/// The first thing wrong with `d` as a `.rec` file, in the decoder's order.
pub open spec fn replay_failure(d: Seq<u8>) -> Option<ReplayFailure> {
    if d.len() < 4 {
        Some(ReplayFailure::ShortHeader(d.len() as int))
    } else if d[0] != 0x42 || d[1] != 0x52 {
        Some(ReplayFailure::BadMagic(d[0], d[1]))
    } else if d[2] != 1 {
        Some(ReplayFailure::UnknownVersion(d[2]))
    } else {
        let n = d[3] as int;
        if 4 + n > d.len() {
            Some(ReplayFailure::Truncated(n, d.len() - 4, ReplayField::LevelRef))
        } else {
            let c = 4 + n;
            if c + 2 > d.len() {
                Some(ReplayFailure::Truncated(2, d.len() - c, ReplayField::MoveCount))
            } else {
                let count = d[c] as int + 256 * d[c + 1] as int;
                let need = packed_len_of(count);
                if c + 2 + need > d.len() {
                    Some(ReplayFailure::Truncated(need, d.len() - c - 2, ReplayField::PackedMoves))
                } else if c + 2 + need != d.len() {
                    Some(ReplayFailure::TrailingBytes(d.len() - c - 2 - need))
                } else {
                    None
                }
            }
        }
    }
}

/// Bytes read as UTF-8, invalid sequences replaced as `from_utf8_lossy` does.
pub open spec fn lossy_decode(b: Seq<u8>) -> Seq<char> {
    if valid_utf8(b) {
        decode_utf8(b)
    } else {
        utf8_lossy(b)
    }
}

/// The level reference stored in a well-formed `.rec` file.
pub open spec fn stored_ref(d: Seq<u8>) -> Seq<char> {
    lossy_decode(d.subrange(4, 4 + d[3] as int))
}

/// The moves stored in a well-formed `.rec` file.
pub open spec fn stored_moves(d: Seq<u8>) -> Seq<Move> {
    let c = 4 + d[3] as int;
    let count = d[c] as int + 256 * d[c + 1] as int;
    unpack(d.subrange(c + 2, d.len() as int), count)
}

/// `String::from_utf8_lossy`, made owned. Claimed: the result is a function of
/// the bytes alone (`utf8_lossy`), and valid UTF-8 decodes as itself. Invalid
/// sequences become U+FFFD; that mapping is not stated here.
#[verifier::external_body]
fn lossy_string(bytes: &[u8]) -> (s: String)
    ensures
        s@ == utf8_lossy(bytes@),
        valid_utf8(bytes@) ==> s@ == decode_utf8(bytes@),
{
    String::from_utf8_lossy(bytes).into_owned()
}

/// The 2-bit code for a direction, or `None` for a non-recordable input.
fn move_code(m: Move) -> (c: Option<u8>)
    ensures
        m == Move::Stay <==> c is None,
        c matches Some(v) ==> v == code_of(m),
{
    match m {
        Move::Up => Some(0),
        Move::Down => Some(1),
        Move::Left => Some(2),
        Move::Right => Some(3),
        Move::Stay => None,
    }
}

/// The direction for a 2-bit code (only the low two bits are used).
fn move_from_code(code: u8) -> (m: Move)
    ensures
        m == move_of_code(code as int % 4),
{
    match code % 4 {
        0 => Move::Up,
        1 => Move::Down,
        2 => Move::Left,
        _ => Move::Right,
    }
}

/// Packed-moves byte length for `count` moves: `ceil(count*2/8)`.
pub fn packed_len(count: usize) -> (n: usize)
    ensures
        n == packed_len_of(count as int),
{
    count / 4 + if count % 4 != 0 {
        1
    } else {
        0
    }
}

/// What [`fit_name`] keeps encodes in at most 255 bytes.
pub proof fn lemma_fit_name_fits(s: Seq<char>)
    ensures
        encode_utf8(fit_name(s)).len() <= 255,
    decreases s.len(),
{
    if encode_utf8(s).len() <= 255 {
    } else if s.len() == 0 {
    } else {
        lemma_fit_name_fits(s.drop_last());
    }
}

/// [`directional`] keeps no [`Move::Stay`].
pub proof fn lemma_directional_has_no_stay(ms: Seq<Move>)
    ensures
        forall|i: int|
            0 <= i < directional(ms).len() ==> #[trigger] directional(ms)[i] != Move::Stay,
    decreases ms.len(),
{
    if ms.len() > 0 {
        lemma_directional_has_no_stay(ms.drop_last());
    }
}

/// UTF-8 encoding distributes over concatenation.
pub proof fn lemma_encode_concat(a: Seq<char>, b: Seq<char>)
    ensures
        encode_utf8(a + b) == encode_utf8(a) + encode_utf8(b),
    decreases a.len(),
{
    if a.len() == 0 {
        assert(a + b =~= b);
    } else {
        assert((a + b).drop_first() =~= a.drop_first() + b);
        assert((a + b)[0] == a[0]);
        lemma_encode_concat(a.drop_first(), b);
    }
}

/// Dropping the last character drops its UTF-8 bytes from the end.
proof fn lemma_encode_drop_last(s: Seq<char>)
    requires
        s.len() > 0,
    ensures
        encode_utf8(s).len() == encode_utf8(s.drop_last()).len() + encode_scalar(
            s.last() as u32,
        ).len(),
{
    let t = seq![s.last()];
    lemma_encode_concat(s.drop_last(), t);
    assert(s.drop_last() + t =~= s);
    assert(t.drop_first() =~= Seq::<char>::empty());
    assert(encode_utf8(t.drop_first()) =~= Seq::<u8>::empty());
    assert(encode_utf8(t) =~= encode_scalar(t[0] as u32) + encode_utf8(t.drop_first()));
    assert(encode_utf8(t) =~= encode_scalar(s.last() as u32));
}

/// The number of UTF-8 bytes of `c`.
fn char_len(c: char) -> (n: usize)
    ensures
        n == encode_scalar(c as u32).len(),
{
    proof {
        vstd::utf8::char_is_scalar(c);
    }
    let v = c as u32;
    if v <= 0x7F {
        1
    } else if v <= 0x7FF {
        2
    } else if v <= 0xFFFF {
        3
    } else {
        4
    }
}

proof fn lemma_unpack_digits(a: int, b: int, c: int, d: int)
    requires
        0 <= a < 4,
        0 <= b < 4,
        0 <= c < 4,
        0 <= d < 4,
    ensures
        ((64 * a + 16 * b + 4 * c + d) / 64) % 4 == a,
        ((64 * a + 16 * b + 4 * c + d) / 16) % 4 == b,
        ((64 * a + 16 * b + 4 * c + d) / 4) % 4 == c,
        ((64 * a + 16 * b + 4 * c + d) / 1) % 4 == d,
        0 <= 64 * a + 16 * b + 4 * c + d < 256,
{
    assert(((64 * a + 16 * b + 4 * c + d) / 64) % 4 == a) by (nonlinear_arith)
        requires
            0 <= a < 4,
            0 <= b < 4,
            0 <= c < 4,
            0 <= d < 4,
    ;
    assert(((64 * a + 16 * b + 4 * c + d) / 16) % 4 == b) by (nonlinear_arith)
        requires
            0 <= a < 4,
            0 <= b < 4,
            0 <= c < 4,
            0 <= d < 4,
    ;
    assert(((64 * a + 16 * b + 4 * c + d) / 4) % 4 == c) by (nonlinear_arith)
        requires
            0 <= a < 4,
            0 <= b < 4,
            0 <= c < 4,
            0 <= d < 4,
    ;
}

/// Unpacking the packed moves gives the moves back, when every move is a direction.
pub proof fn lemma_unpack_pack(ms: Seq<Move>)
    requires
        forall|i: int| 0 <= i < ms.len() ==> #[trigger] ms[i] != Move::Stay,
    ensures
        unpack(pack(ms), ms.len() as int) == ms,
{
    let p = pack(ms);
    assert forall|i: int| 0 <= i < ms.len() implies #[trigger] unpack(p, ms.len() as int)[i]
        == ms[i] by {
        let k = i / 4;
        assert(0 <= k < packed_len_of(ms.len() as int));
        let a = code_at(ms, 4 * k);
        let b = code_at(ms, 4 * k + 1);
        let c = code_at(ms, 4 * k + 2);
        let d = code_at(ms, 4 * k + 3);
        lemma_unpack_digits(a, b, c, d);
        assert(p[k] as int == 64 * a + 16 * b + 4 * c + d);
        assert(i == 4 * k + i % 4);
        assert(code_at(ms, i) == code_of(ms[i]));
    }
    assert(unpack(p, ms.len() as int) =~= ms);
}

impl Replay {
    /// Build a replay from a level reference and a move sequence.
    /// Non-directional inputs ([`Move::Stay`]) are dropped, so the stored
    /// stream is exactly the moves that would be applied. `level_ref` is cut
    /// to at most 255 bytes (the `name_len` field is a `u8`), a whole
    /// character at a time from the end.
    pub fn new(level_ref: &str, moves: &[Move]) -> (r: Replay)
        ensures
            r@.level_ref == fit_name(level_ref@),
            r@.moves == directional(moves@),
            r@.recordable(),
    {
        proof {
            lemma_fit_name_fits(level_ref@);
            lemma_directional_has_no_stay(moves@);
        }
        let mut chars: Vec<char> = Vec::new();
        crate::text::push_str(&mut chars, level_ref);
        assert(chars@ =~= level_ref@);
        let mut len = level_ref.as_bytes().len();
        while len > 255 && chars.len() > 0
            invariant
                len == encode_utf8(chars@).len(),
                fit_name(chars@) == fit_name(level_ref@),
            decreases chars.len(),
        {
            let ghost before = chars@;
            let c = chars.pop().unwrap();
            proof {
                lemma_encode_drop_last(before);
                assert(chars@ == before.drop_last());
            }
            len = len - char_len(c);
        }
        assert(fit_name(chars@) == chars@);
        let name = crate::text::string_of(&chars);

        let mut kept: Vec<Move> = Vec::new();
        let mut i: usize = 0;
        while i < moves.len()
            invariant
                i <= moves.len(),
                kept@ == directional(moves@.take(i as int)),
            decreases moves.len() - i,
        {
            assert(moves@.take(i + 1).drop_last() == moves@.take(i as int));
            if move_code(moves[i]).is_some() {
                kept.push(moves[i]);
            }
            i = i + 1;
        }
        assert(moves@.take(i as int) == moves@);
        Replay { level_ref: name, moves: kept }
    }

    /// Serialize to the exact on-disk `.rec` bytes.
    pub fn to_bytes(&self) -> (out: Vec<u8>)
        ensures
            out@ == replay_bytes(self@),
    {
        let name = self.level_ref.as_str().as_bytes();
        let count = self.moves.len();
        let mut out: Vec<u8> = Vec::new();
        out.push(MAGIC[0]);
        out.push(MAGIC[1]);
        out.push(VERSION);
        out.push(name.len() as u8);
        append_slice(&mut out, name);
        let c16 = count as u16;
        out.push((c16 % 256) as u8);
        out.push((c16 / 256) as u8);
        let ghost before = out@;
        let ms = &self.moves;
        let plen = packed_len(count);
        let mut k: usize = 0;
        while k < plen
            invariant
                plen == packed_len_of(count as int),
                count == ms@.len(),
                k <= plen,
                out@ == before + pack(ms@).take(k as int),
            decreases plen - k,
        {
            let i = 4 * k;
            let mut b: u8 = 0;
            let mut j: usize = 0;
            let ghost mut acc: int = 0;
            while j < 4
                invariant
                    i == 4 * k,
                    i < count,
                    count == ms@.len(),
                    j <= 4,
                    b as int == (if j > 0 { 64 * code_at(ms@, i as int) } else { 0 })
                        + (if j > 1 { 16 * code_at(ms@, i + 1) } else { 0 })
                        + (if j > 2 { 4 * code_at(ms@, i + 2) } else { 0 })
                        + (if j > 3 { code_at(ms@, i + 3) } else { 0 }),
                decreases 4 - j,
            {
                let code: u8 = if j < count - i {
                    match move_code(ms[i + j]) {
                        Some(c) => c,
                        None => 0,
                    }
                } else {
                    0
                };
                let w: u8 = if j == 0 {
                    64
                } else if j == 1 {
                    16
                } else if j == 2 {
                    4
                } else {
                    1
                };
                b = b + code * w;
                j = j + 1;
            }
            out.push(b);
            proof {
                assert(pack(ms@)[k as int] == b);
                assert(pack(ms@).take(k + 1) =~= pack(ms@).take(k as int).push(b));
            }
            k = k + 1;
        }
        assert(pack(ms@).take(k as int) =~= pack(ms@));
        out
    }

    /// Parse a `.rec` file, enforcing magic, version, and exact length.
    pub fn from_bytes(data: &[u8]) -> (r: Result<Replay, ReplayError>)
        ensures
            r is Ok <==> replay_failure(data@) is None,
            r matches Err(e) ==> e.is_failure(replay_failure(data@)->0),
            r matches Ok(rep) ==> rep@.level_ref == stored_ref(data@) && rep@.moves
                == stored_moves(data@),
    {
        let len = data.len();
        if len < HEADER_LEN {
            return Err(ReplayError::ShortHeader(len));
        }
        let magic = [data[0], data[1]];
        if data[0] != MAGIC[0] || data[1] != MAGIC[1] {
            return Err(ReplayError::BadMagic(magic));
        }
        if data[2] != VERSION {
            return Err(ReplayError::UnknownVersion(data[2]));
        }
        let name_len = data[3] as usize;
        let name_end = HEADER_LEN + name_len;
        if name_end > len {
            return Err(
                ReplayError::Truncated {
                    needed: name_len,
                    had: len - HEADER_LEN,
                    what: "the level reference",
                },
            );
        }
        let level_ref = lossy_string(vstd::slice::slice_subrange(data, HEADER_LEN, name_end));
        let cursor = name_end;
        if cursor + 2 > len {
            return Err(
                ReplayError::Truncated { needed: 2, had: len - cursor, what: "the move count" },
            );
        }
        let count = data[cursor] as usize + 256 * (data[cursor + 1] as usize);
        let start = cursor + 2;
        let need = packed_len(count);
        if start + need > len {
            return Err(
                ReplayError::Truncated { needed: need, had: len - start, what: "the packed moves" },
            );
        }
        if start + need != len {
            return Err(ReplayError::TrailingBytes { extra: len - start - need });
        }
        let ghost packed = data@.subrange(start as int, len as int);
        let mut moves: Vec<Move> = Vec::new();
        let mut i: usize = 0;
        while i < count
            invariant
                start + packed_len_of(count as int) == len,
                len == data@.len(),
                packed == data@.subrange(start as int, len as int),
                i <= count,
                moves@ == unpack(packed, count as int).take(i as int),
            decreases count - i,
        {
            let w: u8 = if i % 4 == 0 {
                64
            } else if i % 4 == 1 {
                16
            } else if i % 4 == 2 {
                4
            } else {
                1
            };
            assert(i / 4 < packed_len_of(count as int));
            let b = data[start + i / 4];
            assert(b == packed[(i / 4) as int]);
            let m = move_from_code(b / w);
            moves.push(m);
            proof {
                assert(w as int == weight(i as int));
                assert(unpack(packed, count as int).take(i + 1) =~= unpack(
                    packed,
                    count as int,
                ).take(i as int).push(m));
            }
            i = i + 1;
        }
        assert(unpack(packed, count as int).take(i as int) =~= unpack(packed, count as int));
        Ok(Replay { level_ref, moves })
    }
}

/// Reading back the bytes of a recordable replay with at most 65535 moves
/// gives the same level reference and the same moves.
pub proof fn lemma_write_then_read(r: ReplayView)
    requires
        r.recordable(),
        r.moves.len() <= 0xFFFF,
    ensures
        replay_failure(replay_bytes(r)) is None,
        stored_ref(replay_bytes(r)) == r.level_ref,
        stored_moves(replay_bytes(r)) == r.moves,
{
    let d = replay_bytes(r);
    let name = encode_utf8(r.level_ref);
    let n = name.len() as int;
    let count = r.moves.len() as int;
    let c16 = r.moves.len() as u16;
    assert(c16 as int == count);
    let tail = seq![(c16 % 256) as u8, (c16 / 256) as u8];
    let head = seq![0x42u8, 0x52u8, 1u8, name.len() as u8];
    assert(d == head + name + tail + pack(r.moves));
    assert(d[3] as int == n);
    assert(d.subrange(4, 4 + n) =~= name);
    assert(d[4 + n] == tail[0]);
    assert(d[4 + n + 1] == tail[1]);
    assert(d[4 + n] as int + 256 * d[4 + n + 1] as int == count);
    assert(d.subrange(4 + n + 2, d.len() as int) =~= pack(r.moves));
    vstd::utf8::encode_utf8_valid_utf8(r.level_ref);
    vstd::utf8::encode_utf8_decode_utf8(r.level_ref);
    lemma_unpack_pack(r.moves);
}

} // verus!
