//! The assembler: assembly text to BitVM bytecode.
//!
//! A line-oriented, two-pass assembler: one instruction per line, `;`
//! comments, case-insensitive mnemonics, labels on their own line for jumps.
//! Pass 1 lays out every instruction (so `push` can pick PUSH8 or PUSH16) and
//! records label offsets; pass 2 emits bytes and resolves each jump's `i8`
//! offset, relative to the byte after the full instruction, the same base the
//! VM uses. Every problem comes back as an [`AsmError`] carrying the 1-based
//! source line.
use vstd::prelude::*;

use crate::text::{dec, hex2, hex_digit, push_chars, push_dec, push_str, string_of};
use crate::vm::jump_dest;

verus! {

// ---------------------------------------------------------------------------
// Characters and text
// ---------------------------------------------------------------------------

/// Unicode `White_Space`, the set `char::is_whitespace` tests.
pub open spec fn is_ws(c: char) -> bool {
    let v = c as u32;
    (9 <= v <= 13) || v == 32 || v == 0x85 || v == 0xA0 || v == 0x1680 || (0x2000 <= v <= 0x200A)
        || v == 0x2028 || v == 0x2029 || v == 0x202F || v == 0x205F || v == 0x3000
}

/// An ASCII letter.
pub open spec fn is_alpha(c: char) -> bool {
    (65 <= c as u32 <= 90) || (97 <= c as u32 <= 122)
}

/// An ASCII decimal digit.
pub open spec fn is_digit(c: char) -> bool {
    48 <= c as u32 <= 57
}

/// A character that may continue an identifier.
pub open spec fn is_ident_char(c: char) -> bool {
    is_alpha(c) || is_digit(c) || c == '_'
}

/// `[A-Za-z_][A-Za-z0-9_]*`.
pub open spec fn is_identifier(s: Seq<char>) -> bool {
    &&& s.len() > 0
    &&& (is_alpha(s[0]) || s[0] == '_')
    &&& forall|i: int| 0 <= i < s.len() ==> #[trigger] is_ident_char(s[i])
}

/// ASCII lowercase of one character.
pub open spec fn lower_char(c: char) -> char {
    if 65 <= c as u32 <= 90 {
        ((c as u32) + 32) as char
    } else {
        c
    }
}

/// ASCII lowercase of a text.
pub open spec fn lower(s: Seq<char>) -> Seq<char> {
    s.map_values(|c: char| lower_char(c))
}

/// Index of the first `c` in `s`, or `s.len()` when there is none.
pub open spec fn index_of(s: Seq<char>, c: char) -> int
    decreases s.len(),
{
    if s.len() == 0 {
        0
    } else if s[0] == c {
        0
    } else {
        1 + index_of(s.drop_first(), c)
    }
}

/// Index of the first whitespace in `s`, or `s.len()` when there is none.
pub open spec fn ws_index(s: Seq<char>) -> int
    decreases s.len(),
{
    if s.len() == 0 {
        0
    } else if is_ws(s[0]) {
        0
    } else {
        1 + ws_index(s.drop_first())
    }
}

/// `s` without leading whitespace.
pub open spec fn trim_start(s: Seq<char>) -> Seq<char>
    decreases s.len(),
{
    if s.len() > 0 && is_ws(s[0]) {
        trim_start(s.drop_first())
    } else {
        s
    }
}

/// `s` without trailing whitespace.
pub open spec fn trim_end(s: Seq<char>) -> Seq<char>
    decreases s.len(),
{
    if s.len() > 0 && is_ws(s.last()) {
        trim_end(s.drop_last())
    } else {
        s
    }
}

/// `s` without leading or trailing whitespace.
pub open spec fn trim(s: Seq<char>) -> Seq<char> {
    trim_end(trim_start(s))
}

/// Everything before the first `;`.
pub open spec fn uncommented(s: Seq<char>) -> Seq<char> {
    s.take(index_of(s, ';'))
}

/// The whitespace-separated words of `s`, in order.
pub open spec fn tokens(s: Seq<char>) -> Seq<Seq<char>>
    decreases s.len(),
{
    if s.len() == 0 {
        seq![]
    } else if is_ws(s[0]) {
        tokens(s.drop_first())
    } else {
        let k = ws_index(s);
        proof {
            lemma_ws_index_bounds(s);
        }
        seq![s.take(k)] + tokens(s.skip(k))
    }
}

/// `v`, or `2^32` when `v` is larger.
pub open spec fn capped(v: nat) -> nat {
    if v > 0x1_0000_0000 {
        0x1_0000_0000
    } else {
        v
    }
}

/// `-` before the decimal digits of a negative number.
pub open spec fn sdec(i: int) -> Seq<char> {
    if i < 0 {
        seq!['-'] + dec((-i) as nat)
    } else {
        dec(i as nat)
    }
}

// ---------------------------------------------------------------------------
// Numbers
// ---------------------------------------------------------------------------

/// The value of one digit in `radix` (10 or 16), if it is one.
pub open spec fn digit_value(c: char, radix: int) -> Option<int> {
    let v = c as u32;
    if 48 <= v <= 57 {
        Some(v - 48)
    } else if radix == 16 && 97 <= v <= 102 {
        Some(v - 87)
    } else if radix == 16 && 65 <= v <= 70 {
        Some(v - 55)
    } else {
        None
    }
}

/// Every character of `s` is a digit in `radix`.
pub open spec fn all_digits(s: Seq<char>, radix: int) -> bool {
    forall|i: int| 0 <= i < s.len() ==> #[trigger] digit_value(s[i], radix) is Some
}

/// The number the digits of `s` spell in `radix`.
pub open spec fn digits_value(s: Seq<char>, radix: int) -> nat
    decreases s.len(),
{
    if s.len() == 0 {
        0
    } else {
        (digits_value(s.drop_last(), radix) * radix + digit_value(s.last(), radix)->0) as nat
    }
}

/// A `u32` written in `radix` with an optional leading `+`, as `u32::from_str_radix`
/// reads it: `None` when it is empty, holds a non-digit, or does not fit.
pub open spec fn parse_u32(s: Seq<char>, radix: int) -> Option<nat> {
    let digits = if s.len() > 1 && s[0] == '+' {
        s.drop_first()
    } else {
        s
    };
    if digits.len() == 0 || !all_digits(digits, radix) || digits_value(digits, radix)
        > 0xFFFF_FFFF {
        None
    } else {
        Some(digits_value(digits, radix))
    }
}

/// A decimal or `0x`-hex operand bounded to `u16`, or the message of why not.
pub open spec fn operand_value(tok: Seq<char>) -> Result<nat, Seq<char>> {
    let hex = tok.len() >= 2 && tok[0] == '0' && (tok[1] == 'x' || tok[1] == 'X');
    let parsed = if hex {
        parse_u32(tok.skip(2), 16)
    } else {
        parse_u32(tok, 10)
    };
    match parsed {
        Some(v) => if v <= 0xFFFF {
            Ok(v)
        } else {
            Err("number "@ + dec(v) + " does not fit in u16 (max 65535)"@)
        },
        None => Err("bad number '"@ + tok + "'"@),
    }
}

// ---------------------------------------------------------------------------
// Instructions
// ---------------------------------------------------------------------------

/// The opcode of an operand-less mnemonic.
pub open spec fn simple_byte(m: Seq<char>) -> Option<u8> {
    if m == "nop"@ {
        Some(0x00)
    } else if m == "halt"@ {
        Some(0x01)
    } else if m == "pop"@ {
        Some(0x12)
    } else if m == "dup"@ {
        Some(0x13)
    } else if m == "add"@ {
        Some(0x20)
    } else if m == "sub"@ {
        Some(0x21)
    } else if m == "get_wall"@ {
        Some(0x30)
    } else if m == "set_wall"@ {
        Some(0x31)
    } else if m == "clr_wall"@ {
        Some(0x32)
    } else if m == "player_x"@ {
        Some(0x40)
    } else if m == "player_y"@ {
        Some(0x41)
    } else if m == "get_item"@ {
        Some(0x42)
    } else if m == "score"@ {
        Some(0x43)
    } else if m == "get_hazard"@ {
        Some(0x44)
    } else if m == "rand"@ {
        Some(0x50)
    } else if m == "load"@ {
        Some(0x70)
    } else if m == "store"@ {
        Some(0x71)
    } else {
        None
    }
}

/// The bytes of a push of `value`: width 1 forces PUSH8, width 2 forces
/// PUSH16 (little-endian), width 0 picks PUSH8 for values that fit a byte.
pub open spec fn push_bytes(value: nat, width: int) -> Seq<u8> {
    if width == 2 || (width == 0 && value > 0xFF) {
        seq![0x11u8, (value % 256) as u8, (value / 256) as u8]
    } else {
        seq![0x10u8, value as u8]
    }
}

/// A push of `operand` at `width`, or the message of why it cannot be encoded.
pub open spec fn push_encoding(operand: Option<Seq<char>>, width: int) -> Result<Seq<u8>, Seq<char>> {
    match operand {
        None => Err("'push' needs a number"@),
        Some(tok) => match operand_value(tok) {
            Err(m) => Err(m),
            Ok(v) => if width == 1 && v > 0xFF {
                Err("push8 operand "@ + dec(v) + " does not fit in a byte"@)
            } else {
                Ok(push_bytes(v, width))
            },
        },
    }
}

/// What one source line holds.
pub enum LineKind {
    /// Nothing but whitespace and a comment.
    Blank,
    /// `name:` defines a label.
    Label(Seq<char>),
    /// An instruction fully resolved to bytes.
    Code(Seq<u8>),
    /// A jump with its opcode and the label it names (lowercased).
    Jump(u8, Seq<char>),
}

/// The instruction `mnem` with `operand`, or the message of what is wrong.
pub open spec fn instruction(mnem: Seq<char>, operand: Option<Seq<char>>) -> Result<
    LineKind,
    Seq<char>,
> {
    match simple_byte(mnem) {
        Some(b) => match operand {
            None => Ok(LineKind::Code(seq![b])),
            Some(op) => Err("'"@ + mnem + "' takes no operand (got '"@ + op + "')"@),
        },
        None => {
            let width = if mnem == "push"@ {
                0
            } else if mnem == "push8"@ {
                1
            } else {
                2
            };
            if mnem == "push"@ || mnem == "push8"@ || mnem == "push16"@ {
                match push_encoding(operand, width) {
                    Ok(b) => Ok(LineKind::Code(b)),
                    Err(m) => Err(m),
                }
            } else if mnem == "jmp"@ || mnem == "jz"@ {
                match operand {
                    None => Err("'"@ + mnem + "' needs a label"@),
                    Some(l) => Ok(
                        LineKind::Jump(
                            if mnem == "jmp"@ {
                                0x60u8
                            } else {
                                0x61u8
                            },
                            lower(l),
                        ),
                    ),
                }
            } else {
                Err("unknown mnemonic '"@ + mnem + "'"@)
            }
        },
    }
}

/// What a raw source line holds, or the message of what is wrong with it.
pub open spec fn line_kind(raw: Seq<char>) -> Result<LineKind, Seq<char>> {
    let text = trim(uncommented(raw));
    if text.len() == 0 {
        Ok(LineKind::Blank)
    } else if text.last() == ':' {
        let name = trim(text.drop_last());
        if is_identifier(name) {
            Ok(LineKind::Label(name))
        } else {
            Err("invalid label name '"@ + name + "'"@)
        }
    } else {
        let toks = tokens(text);
        let mnem = lower(toks[0]);
        if toks.len() > 2 {
            Err("unexpected extra tokens after '"@ + mnem + "'"@)
        } else {
            instruction(
                mnem,
                if toks.len() == 2 {
                    Some(toks[1])
                } else {
                    None
                },
            )
        }
    }
}

// ---------------------------------------------------------------------------
// The two passes
// ---------------------------------------------------------------------------

/// One laid-out instruction of pass 1.
pub enum AsmItem {
    /// Resolved bytes.
    Bytes(Seq<u8>),
    /// A jump at byte `at`, from source line `line`, to `label`.
    Jump { op: u8, label: Seq<char>, at: int, line: int },
}

/// The state of pass 1: the items so far, the labels defined (lowercased
/// name and byte offset, in order of definition) and the next byte offset.
pub struct Layout {
    pub items: Seq<AsmItem>,
    pub labels: Seq<(Seq<char>, int)>,
    pub pc: int,
}

/// The offset of label `name`, if one is defined.
pub open spec fn lookup(labels: Seq<(Seq<char>, int)>, name: Seq<char>) -> Option<int>
    decreases labels.len(),
{
    if labels.len() == 0 {
        None
    } else if labels[0].0 == name {
        Some(labels[0].1)
    } else {
        lookup(labels.drop_first(), name)
    }
}

/// Pass 1 on line number `line` holding `raw`.
pub open spec fn line_step(raw: Seq<char>, line: int, st: Layout) -> Result<Layout, (int, Seq<char>)> {
    match line_kind(raw) {
        Err(m) => Err((line, m)),
        Ok(LineKind::Blank) => Ok(st),
        Ok(LineKind::Label(name)) => if lookup(st.labels, lower(name)) is Some {
            Err((line, "duplicate label '"@ + name + "'"@))
        } else {
            Ok(Layout { labels: st.labels.push((lower(name), st.pc)), ..st })
        },
        Ok(LineKind::Code(b)) => Ok(
            Layout { items: st.items.push(AsmItem::Bytes(b)), pc: st.pc + b.len(), ..st },
        ),
        Ok(LineKind::Jump(op, label)) => Ok(
            Layout {
                items: st.items.push(AsmItem::Jump { op, label, at: st.pc, line }),
                pc: st.pc + 2,
                ..st
            },
        ),
    }
}

/// Pass 1 over the text `rest`, whose first line is number `line`.
pub open spec fn pass1(rest: Seq<char>, line: int, st: Layout) -> Result<Layout, (int, Seq<char>)>
    decreases rest.len(),
{
    let k = index_of(rest, '\n');
    proof {
        lemma_index_of_bounds(rest, '\n');
    }
    match line_step(rest.take(k), line, st) {
        Err(e) => Err(e),
        Ok(next) => if k >= rest.len() {
            Ok(next)
        } else {
            pass1(rest.skip(k + 1), line + 1, next)
        },
    }
}

/// The empty layout pass 1 starts from.
pub open spec fn empty_layout() -> Layout {
    Layout { items: seq![], labels: seq![], pc: 0 }
}

/// The bytes of one item, or the message of an unresolvable jump.
pub open spec fn emit(item: AsmItem, labels: Seq<(Seq<char>, int)>) -> Result<
    Seq<u8>,
    (int, Seq<char>),
> {
    match item {
        AsmItem::Bytes(b) => Ok(b),
        AsmItem::Jump { op, label, at, line } => match lookup(labels, label) {
            None => Err((line, "undefined label '"@ + label + "'"@)),
            Some(target) => {
                let rel = target - (at + 2);
                if rel < -128 || rel > 127 {
                    Err(
                        (
                            line,
                            "jump to '"@ + label + "' is "@ + sdec(rel) + " bytes, out of i8 range"@,
                        ),
                    )
                } else {
                    Ok(
                        seq![
                            op,
                            (if rel < 0 {
                                rel + 256
                            } else {
                                rel
                            }) as u8,
                        ],
                    )
                }
            },
        },
    }
}

/// Pass 2: the bytes of every item in order, or the first error.
pub open spec fn pass2(items: Seq<AsmItem>, labels: Seq<(Seq<char>, int)>) -> Result<
    Seq<u8>,
    (int, Seq<char>),
>
    decreases items.len(),
{
    if items.len() == 0 {
        Ok(seq![])
    } else {
        match emit(items[0], labels) {
            Err(e) => Err(e),
            Ok(b) => match pass2(items.drop_first(), labels) {
                Err(e) => Err(e),
                Ok(rest) => Ok(b + rest),
            },
        }
    }
}

/// The bytecode of a source text, or the line and message of its first error.
pub open spec fn assembled(src: Seq<char>) -> Result<Seq<u8>, (int, Seq<char>)> {
    match pass1(src, 1, empty_layout()) {
        Err(e) => Err(e),
        Ok(st) => pass2(st.items, st.labels),
    }
}

// ---------------------------------------------------------------------------
// Lemmas on the text functions
// ---------------------------------------------------------------------------

pub proof fn lemma_index_of_bounds(s: Seq<char>, c: char)
    ensures
        0 <= index_of(s, c) <= s.len(),
        index_of(s, c) < s.len() ==> s[index_of(s, c)] == c,
    decreases s.len(),
{
    if s.len() > 0 && s[0] != c {
        lemma_index_of_bounds(s.drop_first(), c);
    }
}

pub proof fn lemma_ws_index_bounds(s: Seq<char>)
    ensures
        0 <= ws_index(s) <= s.len(),
        s.len() > 0 && !is_ws(s[0]) ==> ws_index(s) >= 1,
    decreases s.len(),
{
    if s.len() > 0 && !is_ws(s[0]) {
        lemma_ws_index_bounds(s.drop_first());
    }
}

pub proof fn lemma_index_of_at(s: Seq<char>, c: char, i: int)
    requires
        0 <= i <= s.len(),
        forall|j: int| 0 <= j < i ==> s[j] != c,
        i == s.len() || s[i] == c,
    ensures
        index_of(s, c) == i,
    decreases s.len(),
{
    if s.len() > 0 && i > 0 {
        assert forall|j: int| 0 <= j < i - 1 implies s.drop_first()[j] != c by {
            assert(s.drop_first()[j] == s[j + 1]);
        }
        lemma_index_of_at(s.drop_first(), c, i - 1);
    }
}

pub proof fn lemma_ws_index_at(s: Seq<char>, i: int)
    requires
        0 <= i <= s.len(),
        forall|j: int| 0 <= j < i ==> !is_ws(#[trigger] s[j]),
        i == s.len() || is_ws(s[i]),
    ensures
        ws_index(s) == i,
    decreases s.len(),
{
    if s.len() > 0 && i > 0 {
        assert forall|j: int| 0 <= j < i - 1 implies !is_ws(#[trigger] s.drop_first()[j]) by {
            assert(s.drop_first()[j] == s[j + 1]);
        }
        lemma_ws_index_at(s.drop_first(), i - 1);
    }
}

pub proof fn lemma_trim_start_at(s: Seq<char>, a: int)
    requires
        0 <= a <= s.len(),
        forall|j: int| 0 <= j < a ==> is_ws(#[trigger] s[j]),
        a == s.len() || !is_ws(s[a]),
    ensures
        trim_start(s) == s.skip(a),
    decreases s.len(),
{
    if a > 0 {
        assert forall|j: int| 0 <= j < a - 1 implies is_ws(#[trigger] s.drop_first()[j]) by {
            assert(s.drop_first()[j] == s[j + 1]);
        }
        assert(is_ws(s[0]));
        lemma_trim_start_at(s.drop_first(), a - 1);
        assert(s.drop_first().skip(a - 1) =~= s.skip(a));
    } else {
        assert(s.skip(0) =~= s);
    }
}

pub proof fn lemma_trim_end_at(s: Seq<char>, b: int)
    requires
        0 <= b <= s.len(),
        forall|j: int| b <= j < s.len() ==> is_ws(#[trigger] s[j]),
        b == 0 || !is_ws(s[b - 1]),
    ensures
        trim_end(s) == s.take(b),
    decreases s.len(),
{
    if b < s.len() {
        assert forall|j: int| b <= j < s.len() - 1 implies is_ws(#[trigger] s.drop_last()[j]) by {
            assert(s.drop_last()[j] == s[j]);
        }
        assert(is_ws(s.last()));
        lemma_trim_end_at(s.drop_last(), b);
        assert(s.drop_last().take(b) =~= s.take(b));
    } else {
        assert(s.take(b) =~= s);
    }
}

pub proof fn lemma_lookup_skip(l: Seq<(Seq<char>, int)>, name: Seq<char>, i: int)
    requires
        0 <= i < l.len(),
    ensures
        lookup(l.skip(i), name) == (if l[i].0 == name {
            Some(l[i].1)
        } else {
            lookup(l.skip(i + 1), name)
        }),
{
    assert(l.skip(i).drop_first() =~= l.skip(i + 1));
}

// ---------------------------------------------------------------------------
// Executable text helpers
// ---------------------------------------------------------------------------

/// `char::is_whitespace`.
fn is_ws_char(c: char) -> (b: bool)
    ensures
        b == is_ws(c),
{
    let v = c as u32;
    (9 <= v && v <= 13) || v == 32 || v == 0x85 || v == 0xA0 || v == 0x1680 || (0x2000 <= v && v
        <= 0x200A) || v == 0x2028 || v == 0x2029 || v == 0x202F || v == 0x205F || v == 0x3000
}

/// ASCII lowercase of one character.
fn lower_char_exec(c: char) -> (d: char)
    ensures
        d == lower_char(c),
{
    let v = c as u32;
    if 65 <= v && v <= 90 {
        let b = (v + 32) as u8;
        b as char
    } else {
        c
    }
}

/// A fresh vector holding `s[a..b]`.
fn sub_chars(s: &Vec<char>, a: usize, b: usize) -> (t: Vec<char>)
    requires
        a <= b <= s.len(),
    ensures
        t@ == s@.subrange(a as int, b as int),
{
    let mut t: Vec<char> = Vec::new();
    let mut i = a;
    while i < b
        invariant
            a <= i <= b <= s.len(),
            t@ == s@.subrange(a as int, i as int),
        decreases b - i,
    {
        t.push(s[i]);
        i = i + 1;
        assert(t@ =~= s@.subrange(a as int, i as int));
    }
    t
}

/// The first index at or after `from` holding `c`, or `s.len()`.
fn find_char(s: &Vec<char>, from: usize, c: char) -> (k: usize)
    requires
        from <= s.len(),
    ensures
        from <= k <= s.len(),
        index_of(s@.skip(from as int), c) == k - from,
{
    let mut k = from;
    while k < s.len() && s[k] != c
        invariant
            from <= k <= s.len(),
            forall|j: int| from <= j < k ==> s@[j] != c,
        decreases s.len() - k,
    {
        k = k + 1;
    }
    proof {
        let t = s@.skip(from as int);
        assert forall|j: int| 0 <= j < k - from implies t[j] != c by {
            assert(t[j] == s@[j + from]);
        }
        lemma_index_of_at(t, c, k - from);
    }
    k
}

/// `s` without leading or trailing whitespace.
fn trim_chars(s: &Vec<char>) -> (t: Vec<char>)
    ensures
        t@ == trim(s@),
        t@.len() <= s@.len(),
        t@.len() > 0 ==> !is_ws(t@[0]),
{
    let mut a: usize = 0;
    while a < s.len() && is_ws_char(s[a])
        invariant
            a <= s.len(),
            forall|j: int| 0 <= j < a ==> is_ws(#[trigger] s@[j]),
        decreases s.len() - a,
    {
        a = a + 1;
    }
    let mut b: usize = s.len();
    while b > a && is_ws_char(s[b - 1])
        invariant
            a <= b <= s.len(),
            forall|j: int| b <= j < s.len() ==> is_ws(#[trigger] s@[j]),
        decreases b - a,
    {
        b = b - 1;
    }
    proof {
        lemma_trim_start_at(s@, a as int);
        let u = s@.skip(a as int);
        assert forall|j: int| b - a <= j < u.len() implies is_ws(#[trigger] u[j]) by {
            assert(u[j] == s@[j + a]);
        }
        if b > a {
            assert(u[b - a - 1] == s@[b - 1]);
        }
        lemma_trim_end_at(u, b - a);
        assert(u.take(b - a) =~= s@.subrange(a as int, b as int));
    }
    sub_chars(s, a, b)
}

/// ASCII lowercase of a text.
fn lower_chars(s: &Vec<char>) -> (t: Vec<char>)
    ensures
        t@ == lower(s@),
{
    let mut t: Vec<char> = Vec::new();
    let mut i: usize = 0;
    while i < s.len()
        invariant
            i <= s.len(),
            t@ == lower(s@.take(i as int)),
        decreases s.len() - i,
    {
        t.push(lower_char_exec(s[i]));
        i = i + 1;
        assert(t@ =~= lower(s@.take(i as int)));
    }
    assert(s@.take(i as int) =~= s@);
    t
}

/// Whether two texts are equal.
fn same_chars(a: &Vec<char>, b: &Vec<char>) -> (r: bool)
    ensures
        r == (a@ == b@),
{
    if a.len() != b.len() {
        return false;
    }
    let mut i: usize = 0;
    while i < a.len()
        invariant
            a.len() == b.len(),
            i <= a.len(),
            forall|j: int| 0 <= j < i ==> a@[j] == b@[j],
        decreases a.len() - i,
    {
        if a[i] != b[i] {
            return false;
        }
        i = i + 1;
    }
    assert(a@ =~= b@);
    true
}

/// Whether `a` is the text `s`.
fn is_word(a: &Vec<char>, s: &str) -> (r: bool)
    ensures
        r == (a@ == s@),
{
    let mut w: Vec<char> = Vec::new();
    push_str(&mut w, s);
    assert(w@ =~= s@);
    same_chars(a, &w)
}

/// Whether `s` is an identifier, `[A-Za-z_][A-Za-z0-9_]*`.
fn is_ident(s: &Vec<char>) -> (b: bool)
    ensures
        b == is_identifier(s@),
{
    if s.len() == 0 {
        return false;
    }
    let c0 = s[0] as u32;
    if !((65 <= c0 && c0 <= 90) || (97 <= c0 && c0 <= 122) || s[0] == '_') {
        return false;
    }
    let mut i: usize = 0;
    while i < s.len()
        invariant
            i <= s.len(),
            forall|j: int| 0 <= j < i ==> #[trigger] is_ident_char(s@[j]),
        decreases s.len() - i,
    {
        let v = s[i] as u32;
        if !((65 <= v && v <= 90) || (97 <= v && v <= 122) || (48 <= v && v <= 57) || s[i] == '_') {
            assert(!is_ident_char(s@[i as int]));
            return false;
        }
        i = i + 1;
    }
    true
}

/// The whitespace-separated words of `s`.
fn split_tokens(s: &Vec<char>) -> (toks: Vec<Vec<char>>)
    ensures
        toks@.map_values(|t: Vec<char>| t@) == tokens(s@),
        forall|i: int| 0 <= i < toks@.len() ==> #[trigger] toks@[i]@.len() <= s@.len(),
{
    let mut toks: Vec<Vec<char>> = Vec::new();
    let mut i: usize = 0;
    assert(s@.skip(0) =~= s@);
    while i < s.len()
        invariant
            i <= s.len(),
            tokens(s@) == toks@.map_values(|t: Vec<char>| t@) + tokens(s@.skip(i as int)),
            forall|k: int| 0 <= k < toks@.len() ==> #[trigger] toks@[k]@.len() <= s@.len(),
        decreases s.len() - i,
    {
        let ghost rest = s@.skip(i as int);
        if is_ws_char(s[i]) {
            assert(rest.drop_first() =~= s@.skip(i + 1));
            i = i + 1;
        } else {
            let mut j = i;
            while j < s.len() && !is_ws_char(s[j])
                invariant
                    i <= j <= s.len(),
                    forall|m: int| i <= m < j ==> !is_ws(#[trigger] s@[m]),
                decreases s.len() - j,
            {
                j = j + 1;
            }
            proof {
                assert forall|m: int| 0 <= m < j - i implies !is_ws(#[trigger] rest[m]) by {
                    assert(rest[m] == s@[m + i]);
                }
                if j < s.len() {
                    assert(rest[j - i] == s@[j as int]);
                }
                lemma_ws_index_at(rest, j - i);
                assert(rest.take(j - i) =~= s@.subrange(i as int, j as int));
                assert(rest.skip(j - i) =~= s@.skip(j as int));
            }
            let t = sub_chars(s, i, j);
            let ghost before = toks@;
            toks.push(t);
            proof {
                assert(toks@.map_values(|t: Vec<char>| t@) =~= before.map_values(|t: Vec<char>| t@)
                    + seq![s@.subrange(i as int, j as int)]);
            }
            i = j;
        }
    }
    assert(s@.skip(i as int) =~= Seq::<char>::empty());
    assert(toks@.map_values(|t: Vec<char>| t@) + Seq::<Seq<char>>::empty() =~= toks@.map_values(
        |t: Vec<char>| t@,
    ));
    toks
}

// ---------------------------------------------------------------------------
// Errors
// ---------------------------------------------------------------------------

/// An assembly error, always carrying the 1-based source line it occurred on
/// so messages point at the offending line.
#[derive(Debug, Clone, PartialEq, Eq)]
pub struct AsmError {
    /// 1-based line number in the source.
    pub line: usize,
    /// Human-readable description of what went wrong.
    pub msg: String,
}

impl AsmError {
    /// This error is the line and message `e`.
    pub open spec fn is(&self, e: (int, Seq<char>)) -> bool {
        self.line as int == e.0 && self.msg@ == e.1
    }

    /// `line N: message`, the error as text.
    pub fn message(&self) -> (s: String)
        ensures
            s@ == "line "@ + dec(self.line as nat) + ": "@ + self.msg@,
    {
        let mut v: Vec<char> = Vec::new();
        push_str(&mut v, "line ");
        push_dec(&mut v, self.line as u64);
        push_str(&mut v, ": ");
        push_str(&mut v, self.msg.as_str());
        string_of(&v)
    }
}

/// Build an [`AsmError`] for `line`.
fn err(line: usize, msg: &Vec<char>) -> (e: AsmError)
    ensures
        e.line == line,
        e.msg@ == msg@,
{
    AsmError { line, msg: string_of(msg) }
}

/// `pre`, then `x`, then `post`.
fn quoted(pre: &str, x: &Vec<char>, post: &str) -> (m: Vec<char>)
    ensures
        m@ == pre@ + x@ + post@,
{
    let mut m: Vec<char> = Vec::new();
    push_str(&mut m, pre);
    push_chars(&mut m, x);
    push_str(&mut m, post);
    m
}

// ---------------------------------------------------------------------------
// Numbers and pushes
// ---------------------------------------------------------------------------

/// The value of digit `c` in `radix`.
fn digit_of(c: char, radix: u32) -> (d: Option<u32>)
    ensures
        match d {
            Some(v) => digit_value(c, radix as int) == Some(v as int) && v < 16,
            None => digit_value(c, radix as int) is None,
        },
{
    let v = c as u32;
    if 48 <= v && v <= 57 {
        Some(v - 48)
    } else if radix == 16 && 97 <= v && v <= 102 {
        Some(v - 87)
    } else if radix == 16 && 65 <= v && v <= 70 {
        Some(v - 55)
    } else {
        None
    }
}

proof fn lemma_grow_capped(prev: nat, r: nat, d: nat)
    requires
        r == 10 || r == 16,
        d < 16,
    ensures
        capped(prev * r + d) == capped(capped(prev) * r + d),
        capped(prev) * r + d < 0x20_0000_0000,
{
    if prev > 0x1_0000_0000 {
        assert(prev * r + d > 0x1_0000_0000) by (nonlinear_arith)
            requires
                prev > 0x1_0000_0000,
                r >= 10,
        ;
    }
}

/// `u32::from_str_radix(s[from..], radix)`: an optional `+`, then digits.
fn parse_u32_at(s: &Vec<char>, from: usize, radix: u32) -> (r: Option<u32>)
    requires
        from <= s.len(),
        radix == 10 || radix == 16,
    ensures
        match r {
            Some(v) => parse_u32(s@.skip(from as int), radix as int) == Some(v as nat),
            None => parse_u32(s@.skip(from as int), radix as int) is None,
        },
{
    let ghost t = s@.skip(from as int);
    let start = if s.len() - from > 1 && s[from] == '+' {
        from + 1
    } else {
        from
    };
    proof {
        assert(t.len() > 1 ==> t[0] == s@[from as int]);
        assert(start > from <==> (t.len() > 1 && t[0] == '+'));
        if start > from {
            assert(t.drop_first() =~= s@.skip(start as int));
        } else {
            assert(t =~= s@.skip(start as int));
        }
    }
    let ghost digits = s@.skip(start as int);
    if start == s.len() {
        return None;
    }
    let mut acc: u64 = 0;
    let mut i = start;
    assert(s@.subrange(start as int, start as int) =~= Seq::<char>::empty());
    while i < s.len()
        invariant
            start <= i <= s.len(),
            radix == 10 || radix == 16,
            digits == s@.skip(start as int),
            t == s@.skip(from as int),
            digits == (if t.len() > 1 && t[0] == '+' {
                t.drop_first()
            } else {
                t
            }),
            all_digits(s@.subrange(start as int, i as int), radix as int),
            acc as nat == capped(digits_value(s@.subrange(start as int, i as int), radix as int)),
        decreases s.len() - i,
    {
        let ghost pre = s@.subrange(start as int, i as int);
        let ghost next = s@.subrange(start as int, i + 1);
        assert(next.drop_last() =~= pre);
        assert(next.last() == s@[i as int]);
        match digit_of(s[i], radix) {
            None => {
                assert(digits[i - start] == s@[i as int]);
                assert(!all_digits(digits, radix as int));
                assert(parse_u32(t, radix as int) is None);
                return None;
            },
            Some(d) => {
                proof {
                    lemma_grow_capped(
                        digits_value(pre, radix as int),
                        radix as nat,
                        d as nat,
                    );
                }
                acc = acc * (radix as u64) + (d as u64);
                if acc > 0x1_0000_0000 {
                    acc = 0x1_0000_0000;
                }
                assert forall|j: int| 0 <= j < next.len() implies #[trigger] digit_value(
                    next[j],
                    radix as int,
                ) is Some by {
                    if j < pre.len() {
                        assert(next[j] == pre[j]);
                    }
                }
            },
        }
        i = i + 1;
    }
    assert(s@.subrange(start as int, i as int) =~= digits);
    if acc > 0xFFFF_FFFF {
        None
    } else {
        Some(acc as u32)
    }
}

/// Parse a decimal or `0x`-hex number, bounded to `u16` (the VM's cell width).
fn parse_num(line: usize, tok: &Vec<char>) -> (r: Result<u32, AsmError>)
    ensures
        match r {
            Ok(v) => operand_value(tok@) == Ok::<nat, Seq<char>>(v as nat) && v <= 0xFFFF,
            Err(e) => e.line == line && operand_value(tok@) == Err::<nat, Seq<char>>(e.msg@),
        },
{
    let hex = tok.len() >= 2 && tok[0] == '0' && (tok[1] == 'x' || tok[1] == 'X');
    let parsed = if hex {
        parse_u32_at(tok, 2, 16)
    } else {
        assert(tok@.skip(0) =~= tok@);
        parse_u32_at(tok, 0, 10)
    };
    match parsed {
        Some(v) => {
            if v <= 0xFFFF {
                Ok(v)
            } else {
                let mut m: Vec<char> = Vec::new();
                push_str(&mut m, "number ");
                push_dec(&mut m, v as u64);
                push_str(&mut m, " does not fit in u16 (max 65535)");
                Err(err(line, &m))
            }
        },
        None => Err(err(line, &quoted("bad number '", tok, "'"))),
    }
}

/// An optional operand as text.
pub open spec fn opt_chars(o: Option<&Vec<char>>) -> Option<Seq<char>> {
    match o {
        Some(t) => Some(t@),
        None => None,
    }
}

/// Encode a `push`/`push8`/`push16`. `width` 1 or 2 forces a size; 0
/// picks PUSH8 for values that fit a `u8`, else PUSH16.
fn encode_push(line: usize, operand: Option<&Vec<char>>, width: u8) -> (r: Result<
    Vec<u8>,
    AsmError,
>)
    requires
        width <= 2,
    ensures
        match r {
            Ok(b) => push_encoding(opt_chars(operand), width as int) == Ok::<Seq<u8>, Seq<char>>(
                b@,
            ) && b@.len() <= 3,
            Err(e) => e.line == line && push_encoding(opt_chars(operand), width as int) == Err::<
                Seq<u8>,
                Seq<char>,
            >(e.msg@),
        },
{
    let tok = match operand {
        None => {
            let mut m: Vec<char> = Vec::new();
            push_str(&mut m, "'push' needs a number");
            return Err(err(line, &m));
        },
        Some(t) => t,
    };
    let value = match parse_num(line, tok) {
        Err(e) => return Err(e),
        Ok(v) => v,
    };
    if width == 1 && value > 0xFF {
        let mut m: Vec<char> = Vec::new();
        push_str(&mut m, "push8 operand ");
        push_dec(&mut m, value as u64);
        push_str(&mut m, " does not fit in a byte");
        return Err(err(line, &m));
    }
    if width == 2 || (width == 0 && value > 0xFF) {
        Ok(vec![0x11u8, (value % 256) as u8, (value / 256) as u8])
    } else {
        Ok(vec![0x10u8, value as u8])
    }
}

/// Reject a stray operand on an operand-less mnemonic.
fn no_operand(line: usize, mnem: &Vec<char>, operand: Option<&Vec<char>>) -> (r: Result<(), AsmError>)
    ensures
        r is Ok <==> operand is None,
        r matches Err(e) ==> (e.line == line && (operand matches Some(op) && e.msg@ == "'"@ + mnem@
            + "' takes no operand (got '"@ + op@ + "')"@)),
{
    match operand {
        None => Ok(()),
        Some(op) => {
            let mut m: Vec<char> = Vec::new();
            push_str(&mut m, "'");
            push_chars(&mut m, mnem);
            push_str(&mut m, "' takes no operand (got '");
            push_chars(&mut m, op);
            push_str(&mut m, "')");
            Err(err(line, &m))
        },
    }
}

// ---------------------------------------------------------------------------
// Lines
// ---------------------------------------------------------------------------

/// The opcode of an operand-less mnemonic.
fn simple_op(m: &Vec<char>) -> (r: Option<u8>)
    ensures
        r == simple_byte(m@),
{
    if is_word(m, "nop") {
        Some(0x00)
    } else if is_word(m, "halt") {
        Some(0x01)
    } else if is_word(m, "pop") {
        Some(0x12)
    } else if is_word(m, "dup") {
        Some(0x13)
    } else if is_word(m, "add") {
        Some(0x20)
    } else if is_word(m, "sub") {
        Some(0x21)
    } else if is_word(m, "get_wall") {
        Some(0x30)
    } else if is_word(m, "set_wall") {
        Some(0x31)
    } else if is_word(m, "clr_wall") {
        Some(0x32)
    } else if is_word(m, "player_x") {
        Some(0x40)
    } else if is_word(m, "player_y") {
        Some(0x41)
    } else if is_word(m, "get_item") {
        Some(0x42)
    } else if is_word(m, "score") {
        Some(0x43)
    } else if is_word(m, "get_hazard") {
        Some(0x44)
    } else if is_word(m, "rand") {
        Some(0x50)
    } else if is_word(m, "load") {
        Some(0x70)
    } else if is_word(m, "store") {
        Some(0x71)
    } else {
        None
    }
}

/// One classified source line.
enum Line {
    Blank,
    Label(Vec<char>),
    Code(Vec<u8>),
    Jump(u8, Vec<char>),
}

impl Line {
    spec fn kind(&self) -> LineKind {
        match self {
            Line::Blank => LineKind::Blank,
            Line::Label(n) => LineKind::Label(n@),
            Line::Code(b) => LineKind::Code(b@),
            Line::Jump(op, l) => LineKind::Jump(*op, l@),
        }
    }
}

/// The instruction `mnem` with `operand`.
fn instruction_of(line: usize, mnem: &Vec<char>, operand: Option<&Vec<char>>) -> (r: Result<
    Line,
    AsmError,
>)
    requires
        mnem@.len() >= 1,
    ensures
        match r {
            Ok(l) => instruction(mnem@, opt_chars(operand)) == Ok::<LineKind, Seq<char>>(l.kind()),
            Err(e) => e.line == line && instruction(mnem@, opt_chars(operand)) == Err::<
                LineKind,
                Seq<char>,
            >(e.msg@),
        },
        r matches Ok(Line::Code(b)) ==> b@.len() <= mnem@.len(),
        r matches Ok(Line::Jump(_, _)) ==> 2 <= mnem@.len(),
        !(r matches Ok(Line::Blank)) && !(r matches Ok(Line::Label(_))),
{
    proof {
        reveal_strlit("push");
        reveal_strlit("push8");
        reveal_strlit("push16");
        reveal_strlit("jmp");
        reveal_strlit("jz");
    }
    match simple_op(mnem) {
        Some(b) => {
            match no_operand(line, mnem, operand) {
                Err(e) => Err(e),
                Ok(()) => {
                    let v = vec![b];
                    assert(v@ =~= seq![b]);
                    Ok(Line::Code(v))
                },
            }
        },
        None => {
            let is_push = is_word(mnem, "push");
            let is_push8 = is_word(mnem, "push8");
            let is_push16 = is_word(mnem, "push16");
            if is_push || is_push8 || is_push16 {
                let width: u8 = if is_push {
                    0
                } else if is_push8 {
                    1
                } else {
                    2
                };
                match encode_push(line, operand, width) {
                    Ok(b) => Ok(Line::Code(b)),
                    Err(e) => Err(e),
                }
            } else {
                let is_jmp = is_word(mnem, "jmp");
                if is_jmp || is_word(mnem, "jz") {
                    match operand {
                        None => Err(err(line, &quoted("'", mnem, "' needs a label"))),
                        Some(l) => Ok(
                            Line::Jump(
                                if is_jmp {
                                    0x60u8
                                } else {
                                    0x61u8
                                },
                                lower_chars(l),
                            ),
                        ),
                    }
                } else {
                    Err(err(line, &quoted("unknown mnemonic '", mnem, "'")))
                }
            }
        },
    }
}

/// Classify the raw source line `raw`, number `line`.
fn classify(raw: &Vec<char>, line: usize) -> (r: Result<Line, AsmError>)
    ensures
        match r {
            Ok(l) => line_kind(raw@) == Ok::<LineKind, Seq<char>>(l.kind()),
            Err(e) => e.line == line && line_kind(raw@) == Err::<LineKind, Seq<char>>(e.msg@),
        },
        r matches Ok(Line::Code(b)) ==> b@.len() <= raw@.len(),
        r matches Ok(Line::Jump(_, _)) ==> 2 <= raw@.len(),
{
    let k = find_char(raw, 0, ';');
    assert(raw@.skip(0) =~= raw@);
    let stripped = sub_chars(raw, 0, k);
    assert(stripped@ =~= uncommented(raw@));
    let text = trim_chars(&stripped);
    let n = text.len();
    if n == 0 {
        return Ok(Line::Blank);
    }
    if text[n - 1] == ':' {
        let name = trim_chars(&sub_chars(&text, 0, n - 1));
        assert(text@.drop_last() =~= text@.subrange(0, n - 1));
        if is_ident(&name) {
            return Ok(Line::Label(name));
        } else {
            return Err(err(line, &quoted("invalid label name '", &name, "'")));
        }
    }
    let toks = split_tokens(&text);
    proof {
        assert(tokens(text@).len() >= 1);
        assert(toks@.map_values(|t: Vec<char>| t@).len() == toks@.len());
    }
    let mnem = lower_chars(&toks[0]);
    proof {
        assert(toks@.map_values(|t: Vec<char>| t@)[0] == toks@[0]@);
        assert(toks@[0]@.len() >= 1) by {
            let t = text@;
            lemma_ws_index_bounds(t);
        }
    }
    if toks.len() > 2 {
        return Err(err(line, &quoted("unexpected extra tokens after '", &mnem, "'")));
    }
    let operand = if toks.len() == 2 {
        assert(toks@.map_values(|t: Vec<char>| t@)[1] == toks@[1]@);
        Some(&toks[1])
    } else {
        None
    };
    instruction_of(line, &mnem, operand)
}

// ---------------------------------------------------------------------------
// The assembler
// ---------------------------------------------------------------------------

/// One assembled item, pending final layout: resolved bytes, or a jump whose
/// offset is known only once every label is.
enum Item {
    Bytes(Vec<u8>),
    Jump { op: u8, label: Vec<char>, at: usize, line: usize },
}

impl Item {
    spec fn item(&self) -> AsmItem {
        match self {
            Item::Bytes(b) => AsmItem::Bytes(b@),
            Item::Jump { op, label, at, line } => AsmItem::Jump {
                op: *op,
                label: label@,
                at: *at as int,
                line: *line as int,
            },
        }
    }
}

spec fn items_view(v: Seq<Item>) -> Seq<AsmItem> {
    v.map_values(|i: Item| i.item())
}

spec fn labels_view(v: Seq<(Vec<char>, usize)>) -> Seq<(Seq<char>, int)> {
    v.map_values(|e: (Vec<char>, usize)| (e.0@, e.1 as int))
}

spec fn layout_of(items: Seq<Item>, labels: Seq<(Vec<char>, usize)>, pc: usize) -> Layout {
    Layout { items: items_view(items), labels: labels_view(labels), pc: pc as int }
}

/// The bytes `prefix` followed by the result `r`.
pub open spec fn after(prefix: Seq<u8>, r: Result<Seq<u8>, (int, Seq<char>)>) -> Result<
    Seq<u8>,
    (int, Seq<char>),
> {
    match r {
        Ok(b) => Ok(prefix + b),
        Err(e) => Err(e),
    }
}

/// The offset of the label `name`.
fn find_label(labels: &Vec<(Vec<char>, usize)>, name: &Vec<char>) -> (r: Option<usize>)
    ensures
        match r {
            Some(v) => lookup(labels_view(labels@), name@) == Some(v as int),
            None => lookup(labels_view(labels@), name@) is None,
        },
{
    let ghost l = labels_view(labels@);
    assert(l.skip(0) =~= l);
    let mut i: usize = 0;
    while i < labels.len()
        invariant
            i <= labels.len(),
            l == labels_view(labels@),
            lookup(l, name@) == lookup(l.skip(i as int), name@),
        decreases labels.len() - i,
    {
        proof {
            lemma_lookup_skip(l, name@, i as int);
        }
        if same_chars(&labels[i].0, name) {
            return Some(labels[i].1);
        }
        i = i + 1;
    }
    assert(l.skip(i as int) =~= Seq::<(Seq<char>, int)>::empty());
    None
}

/// The error for a jump `rel` bytes away, out of `i8` range.
fn range_error(line: usize, label: &Vec<char>, back: bool, dist: usize) -> (e: AsmError)
    requires
        back ==> dist > 0,
    ensures
        e.line == line,
        e.msg@ == "jump to '"@ + label@ + "' is "@ + sdec(
            if back {
                -(dist as int)
            } else {
                dist as int
            },
        ) + " bytes, out of i8 range"@,
{
    let mut m: Vec<char> = Vec::new();
    push_str(&mut m, "jump to '");
    push_chars(&mut m, label);
    push_str(&mut m, "' is ");
    if back {
        push_str(&mut m, "-");
        proof {
            reveal_strlit("-");
        }
    }
    push_dec(&mut m, dist as u64);
    push_str(&mut m, " bytes, out of i8 range");
    err(line, &m)
}

/// Assemble `src` into raw BitVM bytecode.
///
/// Pass 1 reads each line, records label offsets and lays out every
/// instruction's size; pass 2 emits bytes and resolves each jump's relative
/// `i8`. Any problem comes back as an [`AsmError`] with the source line.
pub fn assemble(src: &str) -> (r: Result<Vec<u8>, AsmError>)
    requires
        src@.len() < usize::MAX,
    ensures
        match r {
            Ok(v) => assembled(src@) == Ok::<Seq<u8>, (int, Seq<char>)>(v@),
            Err(e) => assembled(src@) is Err && e.is(assembled(src@)->Err_0),
        },
        r matches Ok(v) ==> v@.len() <= src@.len(),
        r matches Err(e) ==> 1 <= e.line <= line_count(src@),
{
    proof {
        lemma_error_line_in_source(src@);
    }
    let mut chars: Vec<char> = Vec::new();
    push_str(&mut chars, src);
    assert(chars@ =~= src@);
    let mut items: Vec<Item> = Vec::new();
    let mut labels: Vec<(Vec<char>, usize)> = Vec::new();
    let mut pc: usize = 0;
    let mut pos: usize = 0;
    let mut line: usize = 1;
    let ghost whole = pass1(chars@, 1, empty_layout());
    assert(chars@.skip(0) =~= chars@);
    assert(items_view(items@) =~= Seq::<AsmItem>::empty());
    assert(labels_view(labels@) =~= Seq::<(Seq<char>, int)>::empty());
    assert(layout_of(items@, labels@, pc) == empty_layout());
    loop
        invariant_except_break
            pos <= chars.len(),
            1 <= line <= pos + 1,
            pc <= pos,
            whole == pass1(chars@.skip(pos as int), line as int, layout_of(items@, labels@, pc)),
        invariant
            chars@ == src@,
            chars.len() < usize::MAX,
            whole == pass1(chars@, 1, empty_layout()),
            assembled(src@) matches Err(e) ==> 1 <= e.0 <= line_count(src@),
            forall|j: int|
                0 <= j < items@.len() ==> (#[trigger] items@[j] matches Item::Jump { at, .. } ==> at
                    + 2 <= pc),
        ensures
            whole == Ok::<Layout, (int, Seq<char>)>(layout_of(items@, labels@, pc)),
            pc <= chars.len(),
        decreases chars.len() - pos,
    {
        let end = find_char(&chars, pos, '\n');
        let raw = sub_chars(&chars, pos, end);
        let ghost rest = chars@.skip(pos as int);
        let ghost st = layout_of(items@, labels@, pc);
        proof {
            assert(rest.take(end - pos) =~= raw@);
            if end < chars.len() {
                assert(rest.skip(end - pos + 1) =~= chars@.skip(end + 1));
            }
        }
        let ghost step = line_step(raw@, line as int, st);
        match classify(&raw, line) {
            Err(e) => {
                return Err(e);
            },
            Ok(Line::Blank) => {},
            Ok(Line::Label(name)) => {
                let key = lower_chars(&name);
                if find_label(&labels, &key).is_some() {
                    return Err(err(line, &quoted("duplicate label '", &name, "'")));
                }
                let ghost old_labels = labels@;
                labels.push((key, pc));
                assert(labels_view(labels@) =~= labels_view(old_labels).push((key@, pc as int)));
            },
            Ok(Line::Code(b)) => {
                let ghost old_items = items@;
                let ghost bv = b@;
                pc = pc + b.len();
                items.push(Item::Bytes(b));
                assert(items_view(items@) =~= items_view(old_items).push(AsmItem::Bytes(bv)));
            },
            Ok(Line::Jump(op, label)) => {
                let ghost old_items = items@;
                let ghost lv = label@;
                items.push(Item::Jump { op, label, at: pc, line });
                assert(items_view(items@) =~= items_view(old_items).push(
                    AsmItem::Jump { op, label: lv, at: pc as int, line: line as int },
                ));
                pc = pc + 2;
            },
        }
        assert(step == Ok::<Layout, (int, Seq<char>)>(layout_of(items@, labels@, pc)));
        if end >= chars.len() {
            break ;
        }
        pos = end + 1;
        line = line + 1;
    }
    // Pass 2: emit bytes, resolving each jump's relative offset.
    let ghost iv = items_view(items@);
    let ghost lv = labels_view(labels@);
    let ghost res = pass2(iv, lv);
    assert(assembled(src@) == res);
    let mut out: Vec<u8> = Vec::new();
    let mut i: usize = 0;
    proof {
        assert(iv.skip(0) =~= iv);
        if res is Ok {
            assert(Seq::<u8>::empty() + res->Ok_0 =~= res->Ok_0);
        }
    }
    while i < items.len()
        invariant
            i <= items.len(),
            iv == items_view(items@),
            lv == labels_view(labels@),
            res == pass2(iv, lv),
            assembled(src@) == res,
            res matches Err(e) ==> 1 <= e.0 <= line_count(src@),
            res == after(out@, pass2(iv.skip(i as int), lv)),
            forall|j: int|
                0 <= j < items@.len() ==> (#[trigger] items@[j] matches Item::Jump { at, .. } ==> at
                    + 2 <= pc),
        decreases items.len() - i,
    {
        let ghost tail = iv.skip(i as int);
        assert(tail[0] == iv[i as int]);
        assert(tail.drop_first() =~= iv.skip(i + 1));
        let ghost before = out@;
        match &items[i] {
            Item::Bytes(b) => {
                crate::bytes::append_slice(&mut out, b.as_slice());
            },
            Item::Jump { op, label, at, line } => {
                let target = match find_label(&labels, label) {
                    None => {
                        return Err(err(*line, &quoted("undefined label '", label, "'")));
                    },
                    Some(t) => t,
                };
                let base = *at + 2;
                if target >= base {
                    let fwd = target - base;
                    if fwd > 127 {
                        return Err(range_error(*line, label, false, fwd));
                    }
                    out.push(*op);
                    out.push(fwd as u8);
                } else {
                    let back = base - target;
                    if back > 128 {
                        return Err(range_error(*line, label, true, back));
                    }
                    out.push(*op);
                    out.push((256 - back) as u8);
                }
            },
        }
        proof {
            let b = emit(iv[i as int], lv)->Ok_0;
            assert(out@ =~= before + b);
            let r2 = pass2(iv.skip(i + 1), lv);
            if r2 is Ok {
                assert(before + (b + r2->Ok_0) =~= out@ + r2->Ok_0);
            }
        }
        i = i + 1;
    }
    assert(iv.skip(i as int) =~= Seq::<AsmItem>::empty());
    assert(out@ + Seq::<u8>::empty() =~= out@);
    proof {
        assert(laid_out(empty_layout()));
        lemma_pass1_laid_out(src@, 1, empty_layout());
        lemma_pass2_positions(iv, lv);
    }
    Ok(out)
}

// ---------------------------------------------------------------------------
// Layout laws
// ---------------------------------------------------------------------------

/// The number of bytes an item occupies.
pub open spec fn item_size(it: AsmItem) -> int {
    match it {
        AsmItem::Bytes(b) => b.len() as int,
        AsmItem::Jump { .. } => 2,
    }
}

/// The number of bytes a run of items occupies.
pub open spec fn size(items: Seq<AsmItem>) -> int
    decreases items.len(),
{
    if items.len() == 0 {
        0
    } else {
        item_size(items[0]) + size(items.drop_first())
    }
}

/// Every jump sits at the offset its predecessors fill, the next offset is
/// their total size, and every label points inside the code.
pub open spec fn laid_out(st: Layout) -> bool {
    &&& st.pc == size(st.items)
    &&& forall|j: int|
        0 <= j < st.items.len() ==> (#[trigger] st.items[j] matches AsmItem::Jump { at, .. } ==> at
            == size(st.items.take(j)))
    &&& forall|k: int| 0 <= k < st.labels.len() ==> 0 <= #[trigger] st.labels[k].1 <= st.pc
}

proof fn lemma_size_push(items: Seq<AsmItem>, x: AsmItem)
    ensures
        size(items.push(x)) == size(items) + item_size(x),
        size(items) >= 0,
    decreases items.len(),
{
    assert(items.push(x)[0] == if items.len() > 0 {
        items[0]
    } else {
        x
    });
    if items.len() > 0 {
        assert(items.push(x).drop_first() =~= items.drop_first().push(x));
        lemma_size_push(items.drop_first(), x);
    } else {
        assert(items.push(x).drop_first() =~= Seq::<AsmItem>::empty());
        assert(size(Seq::<AsmItem>::empty()) == 0);
    }
}

proof fn lemma_size_prefix(items: Seq<AsmItem>, j: int)
    requires
        0 <= j < items.len(),
    ensures
        0 <= size(items.take(j)),
        size(items.take(j)) + item_size(items[j]) <= size(items),
    decreases items.len() - j,
{
    assert(items.take(j + 1) =~= items.take(j).push(items[j]));
    lemma_size_push(items.take(j), items[j]);
    if j + 1 < items.len() {
        lemma_size_prefix(items, j + 1);
        lemma_size_push(items.take(j + 1), items[j + 1]);
        assert(item_size(items[j + 1]) >= 0);
    } else {
        assert(items.take(j + 1) =~= items);
    }
}

proof fn lemma_lookup_bound(labels: Seq<(Seq<char>, int)>, name: Seq<char>, pc: int)
    requires
        forall|k: int| 0 <= k < labels.len() ==> 0 <= #[trigger] labels[k].1 <= pc,
    ensures
        lookup(labels, name) matches Some(v) ==> 0 <= v <= pc,
    decreases labels.len(),
{
    if labels.len() > 0 && labels[0].0 != name {
        assert forall|k: int| 0 <= k < labels.drop_first().len() implies 0
            <= #[trigger] labels.drop_first()[k].1 <= pc by {
            assert(labels.drop_first()[k] == labels[k + 1]);
        }
        lemma_lookup_bound(labels.drop_first(), name, pc);
    }
}

proof fn lemma_line_step_laid_out(raw: Seq<char>, line: int, st: Layout)
    requires
        laid_out(st),
        line_step(raw, line, st) is Ok,
    ensures
        laid_out(line_step(raw, line, st)->Ok_0),
{
    let next = line_step(raw, line, st)->Ok_0;
    match line_kind(raw) {
        Ok(LineKind::Code(b)) => {
            let x = AsmItem::Bytes(b);
            lemma_size_push(st.items, x);
            assert forall|j: int| 0 <= j < next.items.len() implies (#[trigger] next.items[j] matches AsmItem::Jump { at, .. } ==> at
                == size(next.items.take(j))) by {
                if j < st.items.len() {
                    assert(next.items.take(j) =~= st.items.take(j));
                }
            }
        },
        Ok(LineKind::Jump(op, label)) => {
            let x = AsmItem::Jump { op, label, at: st.pc, line };
            lemma_size_push(st.items, x);
            assert forall|j: int| 0 <= j < next.items.len() implies (#[trigger] next.items[j] matches AsmItem::Jump { at, .. } ==> at
                == size(next.items.take(j))) by {
                if j < st.items.len() {
                    assert(next.items.take(j) =~= st.items.take(j));
                } else {
                    assert(next.items.take(j) =~= st.items);
                }
            }
        },
        Ok(LineKind::Label(name)) => {
            assert forall|k: int| 0 <= k < next.labels.len() implies 0 <= #[trigger] next.labels[k].1
                <= next.pc by {
                if k < st.labels.len() {
                    assert(next.labels[k] == st.labels[k]);
                }
                lemma_size_push(st.items, AsmItem::Bytes(seq![]));
            }
        },
        _ => {},
    }
}

proof fn lemma_pass1_laid_out(rest: Seq<char>, line: int, st: Layout)
    requires
        laid_out(st),
        pass1(rest, line, st) is Ok,
    ensures
        laid_out(pass1(rest, line, st)->Ok_0),
    decreases rest.len(),
{
    let k = index_of(rest, '\n');
    lemma_index_of_bounds(rest, '\n');
    lemma_line_step_laid_out(rest.take(k), line, st);
    let next = line_step(rest.take(k), line, st)->Ok_0;
    if k < rest.len() {
        lemma_pass1_laid_out(rest.skip(k + 1), line + 1, next);
    }
}

proof fn lemma_pass2_positions(items: Seq<AsmItem>, labels: Seq<(Seq<char>, int)>)
    requires
        pass2(items, labels) is Ok,
    ensures
        pass2(items, labels)->Ok_0.len() == size(items),
        forall|j: int|
            0 <= j < items.len() ==> #[trigger] emit(items[j], labels) is Ok && pass2(
                items,
                labels,
            )->Ok_0.subrange(size(items.take(j)), size(items.take(j)) + item_size(items[j]))
                == emit(items[j], labels)->Ok_0,
    decreases items.len(),
{
    if items.len() > 0 {
        let x = items[0];
        let rest = items.drop_first();
        let b = emit(x, labels)->Ok_0;
        lemma_pass2_positions(rest, labels);
        let code = pass2(items, labels)->Ok_0;
        let tail = pass2(rest, labels)->Ok_0;
        assert(code == b + tail);
        assert(b.len() == item_size(x));
        assert forall|j: int| 0 <= j < items.len() implies #[trigger] emit(items[j], labels) is Ok
            && code.subrange(size(items.take(j)), size(items.take(j)) + item_size(items[j]))
            == emit(items[j], labels)->Ok_0 by {
            if j == 0 {
                assert(items.take(0) =~= Seq::<AsmItem>::empty());
                assert(code.subrange(0, b.len() as int) =~= b);
            } else {
                assert(items.take(j).drop_first() =~= rest.take(j - 1));
                assert(items.take(j)[0] == x);
                assert(items[j] == rest[j - 1]);
                let p = size(rest.take(j - 1));
                assert(size(items.take(j)) == b.len() + p);
                lemma_size_prefix(rest, j - 1);
                assert(code.subrange(b.len() + p, b.len() + p + item_size(items[j])) =~= tail.subrange(
                    p,
                    p + item_size(items[j]),
                ));
            }
        }
    }
}

/// Every assembled jump lands on its label: at the jump's offset the code
/// holds its opcode, and the VM's relative jump from the byte after the
/// two-byte instruction reaches exactly the label's offset.
pub proof fn lemma_jumps_land_on_labels(
    src: Seq<char>,
    st: Layout,
    code: Seq<u8>,
    j: int,
    op: u8,
    label: Seq<char>,
    at: int,
    line: int,
)
    requires
        pass1(src, 1, empty_layout()) == Ok::<Layout, (int, Seq<char>)>(st),
        assembled(src) == Ok::<Seq<u8>, (int, Seq<char>)>(code),
        0 <= j < st.items.len(),
        st.items[j] == (AsmItem::Jump { op, label, at, line }),
    ensures
        code[at] == op,
        jump_dest(at + 2, code[at + 1], code.len() as int) == lookup(st.labels, label),
{
    assert(laid_out(empty_layout()));
    lemma_pass1_laid_out(src, 1, empty_layout());
    lemma_pass2_positions(st.items, st.labels);
    assert(st.items[j] matches AsmItem::Jump { at, .. });
    assert(at == size(st.items.take(j)));
    let e = emit(st.items[j], st.labels)->Ok_0;
    lemma_size_prefix(st.items, j);
    assert(code.subrange(at, at + 2) == e);
    assert(code[at] == e[0]);
    assert(code[at + 1] == e[1]);
    lemma_lookup_bound(st.labels, label, st.pc);
}

/// The number of lines in a text, as `str::lines` counts them: every `'\n'`
/// ends a line, and text after the last one is one more line.
pub open spec fn line_count(s: Seq<char>) -> int
    decreases s.len(),
{
    let k = index_of(s, '\n');
    if k < 0 || k >= s.len() {
        if s.len() == 0 {
            0
        } else {
            1
        }
    } else {
        1 + line_count(s.skip(k + 1))
    }
}

/// Every jump in `items` was read from a line in `lo..=hi`.
pub open spec fn jumps_within(items: Seq<AsmItem>, lo: int, hi: int) -> bool {
    forall|j: int|
        0 <= j < items.len() ==> (#[trigger] items[j] matches AsmItem::Jump { line, .. } ==> lo
            <= line <= hi)
}

proof fn lemma_line_count_nonneg(s: Seq<char>)
    ensures
        line_count(s) >= 0,
    decreases s.len(),
{
    let k = index_of(s, '\n');
    lemma_index_of_bounds(s, '\n');
    if 0 <= k < s.len() {
        lemma_line_count_nonneg(s.skip(k + 1));
    }
}

proof fn lemma_pass1_lines(rest: Seq<char>, line: int, st: Layout)
    requires
        line >= 1,
        jumps_within(st.items, 1, line - 1),
    ensures
        pass1(rest, line, st) matches Err(e) ==> line <= e.0 <= line + line_count(rest) - 1,
        pass1(rest, line, st) matches Ok(fin) ==> jumps_within(
            fin.items,
            1,
            line + line_count(rest) - 1,
        ),
    decreases rest.len(),
{
    let k = index_of(rest, '\n');
    lemma_index_of_bounds(rest, '\n');
    let raw = rest.take(k);
    if rest.len() == 0 {
        assert(raw =~= Seq::<char>::empty());
        assert(index_of(Seq::<char>::empty(), ';') == 0);
        assert(uncommented(raw) =~= Seq::<char>::empty());
        assert(trim_start(Seq::<char>::empty()) == Seq::<char>::empty());
        assert(trim_end(Seq::<char>::empty()) == Seq::<char>::empty());
        assert(line_kind(raw) == Ok::<LineKind, Seq<char>>(LineKind::Blank));
    }
    match line_step(raw, line, st) {
        Err(e) => {
            if k < rest.len() {
                lemma_line_count_nonneg(rest.skip(k + 1));
            }
        },
        Ok(next) => {
            assert(jumps_within(next.items, 1, line)) by {
                assert forall|j: int| 0 <= j < next.items.len() implies (#[trigger] next.items[j] matches AsmItem::Jump { line: l, .. } ==> 1 <= l <= line) by {
                    if j < st.items.len() {
                        assert(next.items[j] == st.items[j]);
                    }
                }
            }
            if k < rest.len() {
                lemma_pass1_lines(rest.skip(k + 1), line + 1, next);
                lemma_line_count_nonneg(rest.skip(k + 1));
            } else if rest.len() == 0 {
                assert(next == st);
            }
        },
    }
}

proof fn lemma_pass2_lines(items: Seq<AsmItem>, labels: Seq<(Seq<char>, int)>, n: int)
    requires
        jumps_within(items, 1, n),
    ensures
        pass2(items, labels) matches Err(e) ==> 1 <= e.0 <= n,
    decreases items.len(),
{
    if items.len() > 0 {
        assert(jumps_within(items.drop_first(), 1, n)) by {
            assert forall|j: int| 0 <= j < items.drop_first().len() implies (#[trigger] items.drop_first()[j] matches AsmItem::Jump { line, .. } ==> 1 <= line <= n) by {
                assert(items.drop_first()[j] == items[j + 1]);
            }
        }
        lemma_pass2_lines(items.drop_first(), labels, n);
    }
}

/// An assembly error always names a line of the source: its number lies in
/// `1..=` the source's line count.
pub proof fn lemma_error_line_in_source(src: Seq<char>)
    ensures
        assembled(src) matches Err(e) ==> 1 <= e.0 <= line_count(src),
{
    lemma_pass1_lines(src, 1, empty_layout());
    if pass1(src, 1, empty_layout()) is Ok {
        let st = pass1(src, 1, empty_layout())->Ok_0;
        lemma_pass2_lines(st.items, st.labels, line_count(src));
    }
}

/// The uppercase hex digit for `d` in `0..16` (`{:X}`).
pub open spec fn hex_digit_upper(d: int) -> char {
    if d < 10 {
        (48 + d) as char
    } else {
        (55 + d) as char
    }
}

/// Two uppercase hex digits (`{:02X}`).
pub open spec fn hex2_upper(b: u8) -> Seq<char> {
    seq![hex_digit_upper(b as int / 16), hex_digit_upper(b as int % 16)]
}

/// Hex digits read back as the values they are written for, in either case:
/// `0`-`9` are 0 to 9, and `a`-`f` and `A`-`F` are 10 to 15.
pub proof fn lemma_hex_digits_read_back(d: int)
    requires
        0 <= d < 16,
    ensures
        digit_value(hex_digit(d), 16) == Some(d),
        digit_value(hex_digit_upper(d), 16) == Some(d),
{
}

/// Two hex digits and their value `16 * hi + lo`.
proof fn lemma_two_hex_digits(c1: char, c2: char)
    requires
        digit_value(c1, 16) is Some,
        digit_value(c2, 16) is Some,
    ensures
        parse_u32(seq![c1, c2], 16) == Some(
            (16 * digit_value(c1, 16)->0 + digit_value(c2, 16)->0) as nat,
        ),
        16 * digit_value(c1, 16)->0 + digit_value(c2, 16)->0 <= 255,
{
    let t = seq![c1, c2];
    assert(t.drop_last() =~= seq![c1]);
    assert(seq![c1].drop_last() =~= Seq::<char>::empty());
    assert(all_digits(t, 16));
    let v1 = digit_value(c1, 16)->0;
    let v2 = digit_value(c2, 16)->0;
    assert(0 <= v1 < 16 && 0 <= v2 < 16);
    assert(digits_value(Seq::<char>::empty(), 16) == 0);
    assert(digits_value(seq![c1], 16) == v1);
    assert(digits_value(t, 16) == v1 * 16 + v2);
    assert(c1 != '+');
}

/// `push 0x` with two hex digits is one line holding one `PUSH8`.
proof fn lemma_push_two_hex_digits(c1: char, c2: char)
    requires
        digit_value(c1, 16) is Some,
        digit_value(c2, 16) is Some,
    ensures
        assembled(seq!['p', 'u', 's', 'h', ' ', '0', 'x', c1, c2]) == Ok::<Seq<u8>, (int, Seq<char>)>(
            seq![0x10u8, (16 * digit_value(c1, 16)->0 + digit_value(c2, 16)->0) as u8],
        ),
{
    let src = seq!['p', 'u', 's', 'h', ' ', '0', 'x', c1, c2];
    let v = 16 * digit_value(c1, 16)->0 + digit_value(c2, 16)->0;
    lemma_two_hex_digits(c1, c2);
    // No newline, comment, colon or whitespace but the one space.
    assert forall|j: int| 0 <= j < 9 implies src[j] != '\n' && src[j] != ';' by {}
    lemma_index_of_at(src, '\n', 9);
    lemma_index_of_at(src, ';', 9);
    assert(src.take(9) =~= src);
    assert(uncommented(src) == src);
    lemma_trim_start_at(src, 0);
    assert(src.skip(0) =~= src);
    assert forall|j: int| 9 <= j < src.len() implies is_ws(#[trigger] src[j]) by {}
    lemma_trim_end_at(src, 9);
    assert(trim(src) == src);
    // The words: `push` and the operand.
    let op = seq!['0', 'x', c1, c2];
    assert forall|j: int| 0 <= j < 4 implies !is_ws(#[trigger] src[j]) by {}
    lemma_ws_index_at(src, 4);
    assert forall|j: int| 0 <= j < 4 implies !is_ws(#[trigger] op[j]) by {}
    lemma_ws_index_at(op, 4);
    assert(src.skip(4).drop_first() =~= op);
    assert(op.take(4) =~= op);
    assert(op.skip(4) =~= Seq::<char>::empty());
    assert(tokens(op) == seq![op] + tokens(Seq::<char>::empty()));
    assert(tokens(op) =~= seq![op]);
    assert(tokens(src.skip(4)) == tokens(op));
    assert(tokens(src) == seq![src.take(4)] + tokens(src.skip(4)));
    let toks = tokens(src);
    assert(toks =~= seq![src.take(4), op]);
    reveal_strlit("push");
    assert(lower(src.take(4)) =~= "push"@);
    reveal_strlit("nop");
    reveal_strlit("halt");
    reveal_strlit("pop");
    reveal_strlit("dup");
    reveal_strlit("add");
    reveal_strlit("sub");
    reveal_strlit("get_wall");
    reveal_strlit("set_wall");
    reveal_strlit("clr_wall");
    reveal_strlit("player_x");
    reveal_strlit("player_y");
    reveal_strlit("get_item");
    reveal_strlit("score");
    reveal_strlit("get_hazard");
    reveal_strlit("rand");
    reveal_strlit("load");
    reveal_strlit("store");
    assert("push"@ != "halt"@ && "push"@ != "rand"@ && "push"@ != "load"@) by {
        assert("push"@[0] != "halt"@[0]);
        assert("push"@[0] != "rand"@[0]);
        assert("push"@[0] != "load"@[0]);
    }
    assert(simple_byte("push"@) is None);
    assert(op.skip(2) =~= seq![c1, c2]);
    assert(operand_value(op) == Ok::<nat, Seq<char>>(v as nat));
    assert(push_encoding(Some(op), 0) == Ok::<Seq<u8>, Seq<char>>(seq![0x10u8, v as u8]));
    assert(line_kind(src) == Ok::<LineKind, Seq<char>>(LineKind::Code(seq![0x10u8, v as u8])));
    let st = Layout { items: seq![AsmItem::Bytes(seq![0x10u8, v as u8])], labels: seq![], pc: 2 };
    assert(line_step(src, 1, empty_layout()) == Ok::<Layout, (int, Seq<char>)>(st)) by {
        assert(empty_layout().items.push(AsmItem::Bytes(seq![0x10u8, v as u8])) =~= st.items);
    }
    assert(pass1(src, 1, empty_layout()) == Ok::<Layout, (int, Seq<char>)>(st));
    assert(st.items.drop_first() =~= Seq::<AsmItem>::empty());
    assert(seq![0x10u8, v as u8] + Seq::<u8>::empty() =~= seq![0x10u8, v as u8]);
    assert(emit(st.items[0], st.labels) == Ok::<Seq<u8>, (int, Seq<char>)>(seq![0x10u8, v as u8]));
    assert(pass2(Seq::<AsmItem>::empty(), st.labels) == Ok::<Seq<u8>, (int, Seq<char>)>(seq![]));
    assert(pass2(st.items, st.labels) == Ok::<Seq<u8>, (int, Seq<char>)>(seq![0x10u8, v as u8]));
}

/// Hex operands read as the number they spell, in either case: for every
/// byte `b`, `push 0x` followed by `b`'s two hex digits, lowercase or
/// uppercase, assembles to exactly `PUSH8 b`.
pub proof fn lemma_push_hex_byte(b: u8)
    ensures
        assembled("push 0x"@ + hex2(b)) == Ok::<Seq<u8>, (int, Seq<char>)>(seq![0x10u8, b]),
        assembled("push 0x"@ + hex2_upper(b)) == Ok::<Seq<u8>, (int, Seq<char>)>(seq![0x10u8, b]),
{
    reveal_strlit("push 0x");
    let hi = b as int / 16;
    let lo = b as int % 16;
    lemma_hex_digits_read_back(hi);
    lemma_hex_digits_read_back(lo);
    assert(16 * hi + lo == b as int);
    assert("push 0x"@ + hex2(b) =~= seq!['p', 'u', 's', 'h', ' ', '0', 'x', hex_digit(hi), hex_digit(lo)]);
    assert("push 0x"@ + hex2_upper(b) =~= seq![
        'p',
        'u',
        's',
        'h',
        ' ',
        '0',
        'x',
        hex_digit_upper(hi),
        hex_digit_upper(lo),
    ]);
    lemma_push_two_hex_digits(hex_digit(hi), hex_digit(lo));
    lemma_push_two_hex_digits(hex_digit_upper(hi), hex_digit_upper(lo));
}

} // verus!
