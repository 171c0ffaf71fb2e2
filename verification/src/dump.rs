//! `bitmaze dump`, the project's debugger: every plane as ASCII art, the
//! trigger plane as a hex grid and the script table as hex bytes.
use vstd::prelude::*;

use crate::format::{Level, LevelView, ScriptView};
use crate::text::{dec, hex2, hex_0x, pad_left, push_dec, push_hex2, push_hex_0x, push_padded, push_str, string_of};

verus! {

/// The name a plane goes by in the dump.
pub open spec fn plane_label(i: int) -> Seq<char> {
    if i == 0 {
        "WALLS"@
    } else if i == 1 {
        "ITEMS"@
    } else if i == 2 {
        "HAZARDS"@
    } else {
        "aux"@
    }
}

/// Row `y` of plane `p`: `#` set, `.` clear, then a newline.
pub open spec fn grid_row(l: LevelView, p: int, y: int) -> Seq<char> {
    Seq::new(l.width as nat, |x: int| if l.bit(p, x, y) { '#' } else { '.' }).push('\n')
}

/// The first `n` rows of plane `p`.
pub open spec fn grid(l: LevelView, p: int, n: int) -> Seq<char>
    decreases n,
{
    if n <= 0 {
        seq![]
    } else {
        grid(l, p, n - 1) + grid_row(l, p, n - 1)
    }
}

/// The section of plane `p`: its title line, then its grid.
pub open spec fn plane_section(l: LevelView, p: int) -> Seq<char> {
    "\nplane "@ + dec(p as nat) + " ("@ + plane_label(p) + ")  '#' = set, '.' = clear:\n"@ + grid(
        l,
        p,
        l.height as int,
    )
}

/// The sections of the first `n` planes.
pub open spec fn planes_text(l: LevelView, n: int) -> Seq<char>
    decreases n,
{
    if n <= 0 {
        seq![]
    } else {
        planes_text(l, n - 1) + plane_section(l, n - 1)
    }
}

/// The first `n` bytes of `b` as two-digit hex, separated by spaces.
pub open spec fn hex_join(b: Seq<u8>, n: int) -> Seq<char>
    decreases n,
{
    if n <= 0 {
        seq![]
    } else {
        hex_join(b, n - 1) + (if n - 1 > 0 {
            seq![' ']
        } else {
            seq![]
        }) + hex2(b[n - 1])
    }
}

/// The trigger ids of row `y`, in hex, then a newline.
pub open spec fn trigger_row(l: LevelView, t: Seq<u8>, y: int) -> Seq<char> {
    hex_join(t.subrange(y * l.width, y * l.width + l.width), l.width as int).push('\n')
}

/// The first `n` rows of the trigger plane.
pub open spec fn trigger_grid(l: LevelView, t: Seq<u8>, n: int) -> Seq<char>
    decreases n,
{
    if n <= 0 {
        seq![]
    } else {
        trigger_grid(l, t, n - 1) + trigger_row(l, t, n - 1)
    }
}

/// One script table entry: id, length and bytes.
pub open spec fn script_line(s: ScriptView) -> Seq<char> {
    "  id "@ + pad_left(dec(s.id as nat), 3) + ": "@ + dec(s.bytes.len()) + " byte(s): "@
        + hex_join(s.bytes, s.bytes.len() as int) + "\n"@
}

/// The first `n` script table entries.
pub open spec fn scripts_text(ss: Seq<ScriptView>, n: int) -> Seq<char>
    decreases n,
{
    if n <= 0 {
        seq![]
    } else {
        scripts_text(ss, n - 1) + script_line(ss[n - 1])
    }
}

/// The full dump of a level.
pub open spec fn dump_text(l: LevelView) -> Seq<char> {
    "level: "@ + dec(l.width as nat) + "x"@ + dec(l.height as nat) + " tiles, "@ + dec(
        l.planes.len(),
    ) + " plane(s), flags="@ + hex_0x(l.flags()) + "\n"@ + planes_text(l, l.planes.len() as int)
        + match l.triggers {
        Some(t) => "\ntrigger plane (hex script id per tile, 00 = none):\n"@ + trigger_grid(
            l,
            t,
            l.height as int,
        ),
        None => seq![],
    } + match l.scripts {
        Some(ss) => "\nscript table ("@ + dec(ss.len()) + " script(s)):\n"@ + scripts_text(
            ss,
            ss.len() as int,
        ),
        None => seq![],
    }
}

/// Append the first `n` bytes of `b` in hex, separated by spaces.
fn push_hex_join(out: &mut Vec<char>, b: &[u8], n: usize)
    requires
        n <= b@.len(),
    ensures
        final(out)@ == old(out)@ + hex_join(b@, n as int),
{
    let ghost start = out@;
    let mut k: usize = 0;
    while k < n
        invariant
            k <= n <= b@.len(),
            out@ == start + hex_join(b@, k as int),
        decreases n - k,
    {
        if k > 0 {
            out.push(' ');
        }
        push_hex2(out, b[k]);
        k = k + 1;
        assert(out@ =~= start + hex_join(b@, k as int));
    }
}

/// Render a full human-readable dump of a level.
pub fn render(level: &Level) -> (s: String)
    requires
        level@.sections_sized(),
    ensures
        s@ == dump_text(level@),
{
    let ghost l = level@;
    let mut out: Vec<char> = Vec::new();
    push_str(&mut out, "level: ");
    push_dec(&mut out, level.width as u64);
    push_str(&mut out, "x");
    push_dec(&mut out, level.height as u64);
    push_str(&mut out, " tiles, ");
    push_dec(&mut out, level.planes.len() as u64);
    push_str(&mut out, " plane(s), flags=");
    push_hex_0x(&mut out, level.flags());
    push_str(&mut out, "\n");
    let ghost head = out@;
    let mut i: usize = 0;
    while i < level.planes.len()
        invariant
            l == level@,
            l.sections_sized(),
            i <= l.planes.len(),
            out@ == head + planes_text(l, i as int),
        decreases level.planes.len() - i,
    {
        let ghost before = out@;
        push_str(&mut out, "\nplane ");
        push_dec(&mut out, i as u64);
        push_str(&mut out, " (");
        if i == 0 {
            push_str(&mut out, "WALLS");
        } else if i == 1 {
            push_str(&mut out, "ITEMS");
        } else if i == 2 {
            push_str(&mut out, "HAZARDS");
        } else {
            push_str(&mut out, "aux");
        }
        push_str(&mut out, ")  '#' = set, '.' = clear:\n");
        let ghost title = out@;
        let mut y: u8 = 0;
        while y < level.height
            invariant
                l == level@,
                l.sections_sized(),
                i < l.planes.len(),
                y <= l.height,
                out@ == title + grid(l, i as int, y as int),
            decreases level.height - y,
        {
            let ghost row_start = out@;
            let mut x: u8 = 0;
            while x < level.width
                invariant
                    l == level@,
                    l.sections_sized(),
                    i < l.planes.len(),
                    y < l.height,
                    x <= l.width,
                    out@ == row_start + Seq::new(x as nat, |k: int| if l.bit(i as int, k, y as int) {
                        '#'
                    } else {
                        '.'
                    }),
                decreases level.width - x,
            {
                proof {
                    crate::format::lemma_byte_in_plane(l.width, l.height, x as int, y as int);
                }
                let c = if level.get_bit(i, x, y) {
                    '#'
                } else {
                    '.'
                };
                out.push(c);
                x = x + 1;
                assert(out@ =~= row_start + Seq::new(x as nat, |k: int| if l.bit(
                    i as int,
                    k,
                    y as int,
                ) {
                    '#'
                } else {
                    '.'
                }));
            }
            out.push('\n');
            y = y + 1;
            assert(out@ =~= title + grid(l, i as int, y as int));
        }
        i = i + 1;
        assert(out@ =~= head + planes_text(l, i as int));
    }
    let ghost after_planes = out@;
    match &level.triggers {
        Some(t) => {
            push_str(&mut out, "\ntrigger plane (hex script id per tile, 00 = none):\n");
            let ghost title = out@;
            let w = level.width as usize;
            let mut y: u8 = 0;
            while y < level.height
                invariant
                    l == level@,
                    l.sections_sized(),
                    l.triggers == Some(t@),
                    w == l.width,
                    y <= l.height,
                    out@ == title + trigger_grid(l, t@, y as int),
                decreases level.height - y,
            {
                proof {
                    assert((y as int + 1) * w <= l.height * w) by (nonlinear_arith)
                        requires
                            y < l.height,
                    ;
                    assert((y as int + 1) * w == y * w + w) by (nonlinear_arith);
                    assert(l.height * w == l.tiles()) by (nonlinear_arith)
                        requires
                            w == l.width,
                    ;
                    assert(0 <= y * w <= 255 * 255) by (nonlinear_arith)
                        requires
                            y < 256,
                            w < 256,
                    ;
                }
                let start = y as usize * w;
                let row = vstd::slice::slice_subrange(t.as_slice(), start, start + w);
                push_hex_join(&mut out, row, w);
                out.push('\n');
                y = y + 1;
                assert(out@ =~= title + trigger_grid(l, t@, y as int));
            }
        },
        None => {},
    }
    let ghost after_triggers = out@;
    match &level.scripts {
        Some(ss) => {
            let ghost sv = ss@.map_values(|sc: crate::format::Script| sc@);
            push_str(&mut out, "\nscript table (");
            push_dec(&mut out, ss.len() as u64);
            push_str(&mut out, " script(s)):\n");
            let ghost title = out@;
            let mut k: usize = 0;
            while k < ss.len()
                invariant
                    l == level@,
                    l.scripts == Some(sv),
                    sv == ss@.map_values(|sc: crate::format::Script| sc@),
                    k <= ss@.len(),
                    out@ == title + scripts_text(sv, k as int),
                decreases ss.len() - k,
            {
                let s = &ss[k];
                assert(sv[k as int] == s@);
                push_str(&mut out, "  id ");
                let id = crate::text::dec_chars(s.id as u64);
                push_padded(&mut out, &id, 3);
                push_str(&mut out, ": ");
                push_dec(&mut out, s.bytes.len() as u64);
                push_str(&mut out, " byte(s): ");
                push_hex_join(&mut out, s.bytes.as_slice(), s.bytes.len());
                push_str(&mut out, "\n");
                k = k + 1;
                assert(out@ =~= title + scripts_text(sv, k as int));
            }
        },
        None => {},
    }
    assert(out@ =~= dump_text(l));
    string_of(&out)
}

} // verus!
