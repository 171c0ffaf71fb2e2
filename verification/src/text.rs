//! Text building: decimal and hex numbers, literals, and the final `String`.
use vstd::prelude::*;

verus! {

/// The decimal digit for `d` in `0..10`.
pub open spec fn digit(d: int) -> char {
    (48 + d) as char
}

/// The decimal representation of `n`, most significant digit first.
pub open spec fn dec(n: nat) -> Seq<char>
    decreases n,
{
    if n < 10 {
        seq![digit(n as int)]
    } else {
        dec(n / 10) + seq![digit((n % 10) as int)]
    }
}

/// The lowercase hex digit for `d` in `0..16`.
pub open spec fn hex_digit(d: int) -> char {
    if d < 10 {
        (48 + d) as char
    } else {
        (87 + d) as char
    }
}

/// Two lowercase hex digits (`{:02x}`).
pub open spec fn hex2(b: u8) -> Seq<char> {
    seq![hex_digit(b as int / 16), hex_digit(b as int % 16)]
}

/// `0x` and two lowercase hex digits (`{:#04x}`).
pub open spec fn hex_0x(b: u8) -> Seq<char> {
    seq!['0', 'x'] + hex2(b)
}

/// `s` right-aligned in a field of `width` characters.
pub open spec fn pad_left(s: Seq<char>, width: nat) -> Seq<char> {
    if s.len() >= width {
        s
    } else {
        Seq::new((width - s.len()) as nat, |i: int| ' ') + s
    }
}

/// Append the characters of `s`.
pub fn push_str(out: &mut Vec<char>, s: &str)
    ensures
        final(out)@ == old(out)@ + s@,
{
    let ghost start = out@;
    for c in it: s.chars()
        invariant
            it.seq() == s@,
            out@ == start + it.seq().take(it.index() as int),
    {
        out.push(c);
        assert(it.seq().take(it.index() as int + 1) == it.seq().take(it.index() as int).push(c));
    }
    assert(s@.take(s@.len() as int) == s@);
}

/// Append the characters of `s`.
pub fn push_chars(out: &mut Vec<char>, s: &Vec<char>)
    ensures
        final(out)@ == old(out)@ + s@,
{
    let ghost start = out@;
    let mut i: usize = 0;
    while i < s.len()
        invariant
            i <= s.len(),
            out@ == start + s@.take(i as int),
        decreases s.len() - i,
    {
        out.push(s[i]);
        i = i + 1;
        assert(s@.take(i as int) == s@.take((i - 1) as int).push(s@[i - 1]));
    }
    assert(s@.take(i as int) == s@);
}

/// Append the decimal representation of `n`.
pub fn push_dec(out: &mut Vec<char>, n: u64)
    ensures
        final(out)@ == old(out)@ + dec(n as nat),
    decreases n,
{
    if n >= 10 {
        push_dec(out, n / 10);
    }
    let d = (n % 10) as u8;
    out.push((48u8 + d) as char);
    proof {
        assert(((48u8 + d) as char) == digit((n % 10) as int));
    }
}

/// The decimal representation of `n`.
pub fn dec_chars(n: u64) -> (v: Vec<char>)
    ensures
        v@ == dec(n as nat),
{
    let mut v: Vec<char> = Vec::new();
    push_dec(&mut v, n);
    v
}

fn hex_char(d: u8) -> (c: char)
    requires
        d < 16,
    ensures
        c == hex_digit(d as int),
{
    if d < 10 {
        (48u8 + d) as char
    } else {
        (87u8 + d) as char
    }
}

/// Append two lowercase hex digits (`{:02x}`).
pub fn push_hex2(out: &mut Vec<char>, b: u8)
    ensures
        final(out)@ == old(out)@ + hex2(b),
{
    out.push(hex_char(b / 16));
    out.push(hex_char(b % 16));
}

/// Append `0x` and two lowercase hex digits (`{:#04x}`).
pub fn push_hex_0x(out: &mut Vec<char>, b: u8)
    ensures
        final(out)@ == old(out)@ + hex_0x(b),
{
    out.push('0');
    out.push('x');
    push_hex2(out, b);
}

/// Append `s` right-aligned in a field of `width` characters.
pub fn push_padded(out: &mut Vec<char>, s: &Vec<char>, width: usize)
    ensures
        final(out)@ == old(out)@ + pad_left(s@, width as nat),
{
    let ghost start = out@;
    if s.len() < width {
        let mut i: usize = 0;
        while i < width - s.len()
            invariant
                s.len() < width,
                i <= width - s.len(),
                out@ == start + Seq::new(i as nat, |k: int| ' '),
            decreases width - s.len() - i,
        {
            out.push(' ');
            i = i + 1;
            assert(out@ == start + Seq::new(i as nat, |k: int| ' '));
        }
    }
    push_chars(out, s);
}

/// Collects characters into a `String` through `Iterator::collect`
/// (`String: FromIterator<char>`). Claimed: the string holds exactly those
/// characters, in order.
#[verifier::external_body]
pub(crate) fn string_of(chars: &Vec<char>) -> (s: String)
    ensures
        s@ == chars@,
{
    chars.iter().collect()
}

} // verus!
