//! `bitmaze check`: a one-line-per-fact summary of a valid level.
use vstd::prelude::*;

use crate::format::{level_bytes, plane_len, Level, LevelView, Script, ScriptView};
use crate::text::{dec, hex_0x, push_dec, push_hex_0x, push_str, string_of};

verus! {

/// The total bytecode length of the first `n` scripts.
pub open spec fn bytecode_len(ss: Seq<ScriptView>, n: int) -> int
    decreases n,
{
    if n <= 0 {
        0
    } else {
        bytecode_len(ss, n - 1) + ss[n - 1].bytes.len()
    }
}

/// The summary of a valid level, one fact per line.
pub open spec fn summary_text(l: LevelView) -> Seq<char> {
    "OK: valid bit-maze v1 level\n"@ + "  dimensions : "@ + dec(l.width as nat) + "x"@ + dec(
        l.height as nat,
    ) + " ("@ + dec(l.tiles() as nat) + " tiles)\n"@ + "  flags      : "@ + hex_0x(l.flags())
        + "\n"@ + "  planes     : "@ + dec(l.planes.len()) + " x "@ + dec(l.plane_len() as nat)
        + " bytes each\n"@ + match l.triggers {
        Some(t) => "  triggers   : present ("@ + dec(t.len()) + " bytes)\n"@,
        None => "  triggers   : none\n"@,
    } + match l.scripts {
        Some(ss) => "  scripts    : "@ + dec(ss.len()) + " script(s), "@ + dec(
            bytecode_len(ss, ss.len() as int) as nat,
        ) + " bytecode byte(s)\n"@,
        None => "  scripts    : none\n"@,
    } + "  total size : "@ + dec(level_bytes(l).len()) + " bytes"@
}

proof fn lemma_bytecode_len_grows(ss: Seq<ScriptView>, a: int, b: int)
    requires
        0 <= a <= b <= ss.len(),
    ensures
        0 <= bytecode_len(ss, a) <= bytecode_len(ss, b),
    decreases b,
{
    if a < b {
        lemma_bytecode_len_grows(ss, a, b - 1);
    } else if a > 0 {
        lemma_bytecode_len_grows(ss, 0, a - 1);
    }
}

/// The level's total bytecode length fits in a `usize`, as the running sum
/// needs.
pub open spec fn bytecode_fits(l: LevelView) -> bool {
    match l.scripts {
        Some(ss) => bytecode_len(ss, ss.len() as int) <= usize::MAX,
        None => true,
    }
}

/// A human-readable `OK` summary for a level that already parsed and
/// therefore satisfies every invariant; any other level is summarised the same
/// way, fact by fact.
pub fn summary(level: &Level) -> (s: String)
    requires
        bytecode_fits(level@),
    ensures
        s@ == summary_text(level@),
{
    let ghost l = level@;
    let plen = plane_len(level.width, level.height);
    let mut out: Vec<char> = Vec::new();
    push_str(&mut out, "OK: valid bit-maze v1 level\n");
    push_str(&mut out, "  dimensions : ");
    push_dec(&mut out, level.width as u64);
    push_str(&mut out, "x");
    push_dec(&mut out, level.height as u64);
    push_str(&mut out, " (");
    push_dec(&mut out, level.tile_count() as u64);
    push_str(&mut out, " tiles)\n");
    push_str(&mut out, "  flags      : ");
    push_hex_0x(&mut out, level.flags());
    push_str(&mut out, "\n");
    push_str(&mut out, "  planes     : ");
    push_dec(&mut out, level.planes.len() as u64);
    push_str(&mut out, " x ");
    push_dec(&mut out, plen as u64);
    push_str(&mut out, " bytes each\n");
    match &level.triggers {
        Some(t) => {
            push_str(&mut out, "  triggers   : present (");
            push_dec(&mut out, t.len() as u64);
            push_str(&mut out, " bytes)\n");
        },
        None => push_str(&mut out, "  triggers   : none\n"),
    }
    match &level.scripts {
        Some(ss) => {
            let ghost sv = ss@.map_values(|sc: Script| sc@);
            let mut total: usize = 0;
            let mut k: usize = 0;
            while k < ss.len()
                invariant
                    l == level@,
                    bytecode_fits(l),
                    l.scripts == Some(sv),
                    sv == ss@.map_values(|sc: Script| sc@),
                    k <= ss@.len(),
                    total == bytecode_len(sv, k as int),
                decreases ss.len() - k,
            {
                assert(sv[k as int] == ss@[k as int]@);
                proof {
                    lemma_bytecode_len_grows(sv, k + 1, sv.len() as int);
                }
                total = total + ss[k].bytes.len();
                k = k + 1;
            }
            push_str(&mut out, "  scripts    : ");
            push_dec(&mut out, ss.len() as u64);
            push_str(&mut out, " script(s), ");
            push_dec(&mut out, total as u64);
            push_str(&mut out, " bytecode byte(s)\n");
        },
        None => push_str(&mut out, "  scripts    : none\n"),
    }
    push_str(&mut out, "  total size : ");
    push_dec(&mut out, level.to_bytes().len() as u64);
    push_str(&mut out, " bytes");
    assert(out@ =~= summary_text(l));
    string_of(&out)
}

} // verus!
