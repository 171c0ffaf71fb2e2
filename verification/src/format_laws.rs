//! Laws of the `.bm` format: writing then reading gives the level back, and
//! reading then writing gives the bytes back.
use vstd::prelude::*;

use crate::format::{
    bit_of, byte_with_bit, concat, len_le, level_bytes, lemma_index_in_range, with_bit, lemma_tiles_bound, parse_failure, scan_scripts, script_bytes, script_section,
    scripts_bytes, trigger_section, LevelView, ParseFailure, ScriptView,
};

verus! {

proof fn lemma_scripts_front(ss: Seq<ScriptView>)
    requires
        ss.len() > 0,
    ensures
        scripts_bytes(ss) == script_bytes(ss[0]) + scripts_bytes(ss.drop_first()),
    decreases ss.len(),
{
    if ss.len() == 1 {
        assert(ss.drop_last() =~= Seq::<ScriptView>::empty());
        assert(ss.drop_first() =~= Seq::<ScriptView>::empty());
        assert(scripts_bytes(ss.drop_first()) =~= Seq::<u8>::empty());
        assert(scripts_bytes(ss) =~= script_bytes(ss[0]));
    } else {
        lemma_scripts_front(ss.drop_last());
        assert(ss.drop_last().drop_first() =~= ss.drop_first().drop_last());
        assert(ss.drop_first().last() == ss.last());
        assert(ss.drop_last()[0] == ss[0]);
        assert(scripts_bytes(ss) =~= script_bytes(ss[0]) + scripts_bytes(ss.drop_first()));
    }
}

proof fn lemma_scan_ok(d: Seq<u8>, c: int, ss: Seq<ScriptView>)
    requires
        0 <= c,
        c + scripts_bytes(ss).len() <= d.len(),
        d.subrange(c, c + scripts_bytes(ss).len()) == scripts_bytes(ss),
        forall|i: int| 0 <= i < ss.len() ==> #[trigger] ss[i].bytes.len() <= 0xFFFF,
    ensures
        scan_scripts(d, c, ss.len()) == Ok::<int, ParseFailure>(c + scripts_bytes(ss).len()),
    decreases ss.len(),
{
    if ss.len() == 0 {
    } else {
        lemma_scripts_front(ss);
        let first = script_bytes(ss[0]);
        let rest = ss.drop_first();
        let n = ss[0].bytes.len() as int;
        assert(n <= 0xFFFF);
        assert(n as u16 == n);
        assert(d.subrange(c, c + first.len()) =~= first) by {
            assert(forall|k: int|
                0 <= k < first.len() ==> d.subrange(c, c + scripts_bytes(ss).len())[k] == #[trigger] d[c
                    + k]);
        }
        assert(first[1] == len_le(n)[0] && first[2] == len_le(n)[1]);
        assert(d[c + 1] == d.subrange(c, c + first.len())[1]);
        assert(d[c + 2] == d.subrange(c, c + first.len())[2]);
        assert(d[c + 1] == (n as u16 % 256) as u8);
        assert(d[c + 2] == (n as u16 / 256) as u8);
        assert(d[c + 1] as int + 256 * d[c + 2] as int == n);
        let whole = scripts_bytes(ss);
        assert(whole == first + scripts_bytes(rest));
        assert(d.subrange(c + first.len(), c + first.len() + scripts_bytes(rest).len())
            =~= scripts_bytes(rest)) by {
            assert forall|k: int| 0 <= k < scripts_bytes(rest).len() implies d.subrange(
                c + first.len(),
                c + first.len() + scripts_bytes(rest).len(),
            )[k] == scripts_bytes(rest)[k] by {
                assert(whole[first.len() + k] == scripts_bytes(rest)[k]);
                assert(d.subrange(c, c + whole.len())[first.len() + k] == d[c + first.len() + k]);
            }
        }
        assert forall|i: int| 0 <= i < rest.len() implies #[trigger] rest[i].bytes.len()
            <= 0xFFFF by {
            assert(rest[i] == ss[i + 1]);
        }
        lemma_scan_ok(d, c + first.len(), rest);
    }
}

proof fn lemma_concat_len(ps: Seq<Seq<u8>>, plen: int)
    requires
        forall|i: int| 0 <= i < ps.len() ==> #[trigger] ps[i].len() == plen,
    ensures
        concat(ps).len() == ps.len() * plen,
    decreases ps.len(),
{
    if ps.len() > 0 {
        lemma_concat_len(ps.drop_last(), plen);
        assert(ps.last().len() == plen);
        assert(concat(ps).len() == ps.len() * plen) by (nonlinear_arith)
            requires
                concat(ps).len() == (ps.len() - 1) * plen + plen,
        ;
    }
}

proof fn lemma_concat_injective(a: Seq<Seq<u8>>, b: Seq<Seq<u8>>, plen: int)
    requires
        a.len() == b.len(),
        forall|i: int| 0 <= i < a.len() ==> #[trigger] a[i].len() == plen,
        forall|i: int| 0 <= i < b.len() ==> #[trigger] b[i].len() == plen,
        concat(a) == concat(b),
    ensures
        a == b,
    decreases a.len(),
{
    if a.len() > 0 {
        let pa = concat(a.drop_last());
        let pb = concat(b.drop_last());
        lemma_concat_len(a.drop_last(), plen);
        lemma_concat_len(b.drop_last(), plen);
        assert(pa.len() == pb.len());
        assert(a.last() =~= concat(a).subrange(pa.len() as int, concat(a).len() as int));
        assert(b.last() =~= concat(b).subrange(pb.len() as int, concat(b).len() as int));
        assert(pa =~= concat(a).subrange(0, pa.len() as int));
        assert(pb =~= concat(b).subrange(0, pb.len() as int));
        lemma_concat_injective(a.drop_last(), b.drop_last(), plen);
        assert(a =~= b) by {
            assert forall|i: int| 0 <= i < a.len() implies a[i] == b[i] by {
                if i < a.len() - 1 {
                    assert(a.drop_last()[i] == b.drop_last()[i]);
                }
            }
        }
    } else {
        assert(a =~= b);
    }
}

proof fn lemma_scripts_injective(sa: Seq<ScriptView>, sb: Seq<ScriptView>)
    requires
        sa.len() == sb.len(),
        forall|i: int| 0 <= i < sa.len() ==> #[trigger] sa[i].bytes.len() <= 0xFFFF,
        forall|i: int| 0 <= i < sb.len() ==> #[trigger] sb[i].bytes.len() <= 0xFFFF,
        scripts_bytes(sa) == scripts_bytes(sb),
    ensures
        sa == sb,
    decreases sa.len(),
{
    if sa.len() == 0 {
        assert(sa =~= sb);
    } else {
        lemma_scripts_front(sa);
        lemma_scripts_front(sb);
        let x = scripts_bytes(sa);
        let na = sa[0].bytes.len() as int;
        let nb = sb[0].bytes.len() as int;
        assert(na <= 0xFFFF && nb <= 0xFFFF);
        assert(na as u16 == na && nb as u16 == nb);
        assert(x[1] == (na as u16 % 256) as u8 && x[2] == (na as u16 / 256) as u8);
        assert(x[1] == (nb as u16 % 256) as u8 && x[2] == (nb as u16 / 256) as u8);
        assert(na == nb);
        assert(sa[0].bytes =~= x.subrange(3, 3 + na));
        assert(sb[0].bytes =~= x.subrange(3, 3 + nb));
        assert(sa[0].id == x[0] && sb[0].id == x[0]);
        assert(sa[0] == sb[0]);
        assert(scripts_bytes(sa.drop_first()) =~= x.subrange(3 + na, x.len() as int));
        assert(scripts_bytes(sb.drop_first()) =~= x.subrange(3 + nb, x.len() as int));
        assert forall|i: int| 0 <= i < sa.drop_first().len() implies #[trigger] sa.drop_first()[i].bytes.len()
            <= 0xFFFF by {
            assert(sa.drop_first()[i] == sa[i + 1]);
        }
        assert forall|i: int| 0 <= i < sb.drop_first().len() implies #[trigger] sb.drop_first()[i].bytes.len()
            <= 0xFFFF by {
            assert(sb.drop_first()[i] == sb[i + 1]);
        }
        lemma_scripts_injective(sa.drop_first(), sb.drop_first());
        assert(sa =~= sb) by {
            assert forall|i: int| 0 <= i < sa.len() implies sa[i] == sb[i] by {
                if i > 0 {
                    assert(sa.drop_first()[i - 1] == sb.drop_first()[i - 1]);
                }
            }
        }
    }
}

/// Serialization is injective on well-formed levels: two well-formed levels
/// with the same bytes are the same level.
pub proof fn lemma_level_bytes_injective(a: LevelView, b: LevelView)
    requires
        a.wf(),
        b.wf(),
        level_bytes(a) == level_bytes(b),
    ensures
        a == b,
{
    let x = level_bytes(a);
    assert(x[4] == a.width && x[4] == b.width);
    assert(x[5] == a.height && x[5] == b.height);
    assert(x[6] == a.planes.len() as u8 && x[6] == b.planes.len() as u8);
    assert(a.planes.len() == b.planes.len());
    assert(x[3] == a.flags() && x[3] == b.flags());
    assert(a.triggers is Some == b.triggers is Some);
    assert(a.scripts is Some == b.scripts is Some);
    let plen = a.plane_len();
    lemma_concat_len(a.planes, plen);
    lemma_concat_len(b.planes, plen);
    let c1: int = 8 + concat(a.planes).len() as int;
    assert(concat(a.planes) =~= x.subrange(8, c1));
    assert(concat(b.planes) =~= x.subrange(8, c1));
    lemma_concat_injective(a.planes, b.planes, plen);
    let c2: int = c1 + trigger_section(a.triggers).len();
    assert(trigger_section(a.triggers).len() == trigger_section(b.triggers).len());
    assert(trigger_section(a.triggers) =~= x.subrange(c1, c2));
    assert(trigger_section(b.triggers) =~= x.subrange(c1, c2));
    assert(a.triggers == b.triggers);
    assert(script_section(a.scripts) =~= x.subrange(c2, x.len() as int));
    assert(script_section(b.scripts) =~= x.subrange(c2, x.len() as int));
    if a.scripts is Some {
        let sa = a.scripts->0;
        let sb = b.scripts->0;
        assert(sa.len() as u8 == x[c2] && sb.len() as u8 == x[c2]);
        assert(sa.len() == sb.len());
        assert(scripts_bytes(sa) =~= x.subrange(c2 + 1, x.len() as int));
        assert(scripts_bytes(sb) =~= x.subrange(c2 + 1, x.len() as int));
        lemma_scripts_injective(sa, sb);
    }
}

/// The loader accepts every well-formed level's bytes: in particular its flags
/// byte has no reserved bit set.
pub proof fn lemma_well_formed_bytes_parse(l: LevelView)
    requires
        l.wf(),
    ensures
        parse_failure(level_bytes(l)) is None,
        level_bytes(l)[3] & 0xFCu8 == 0,
{
    let d = level_bytes(l);
    let plen = l.plane_len();
    lemma_tiles_bound(l.width, l.height);
    assert(l.width as int * l.height as int >= 1) by (nonlinear_arith)
        requires
            l.width >= 1,
            l.height >= 1,
    ;
    assert(plen >= 1);
    lemma_concat_len(l.planes, plen);
    let c1: int = 8 + l.planes.len() * plen;
    let f = l.flags();
    assert(d[3] == f);
    assert(f & 3u8 == f && (f & 1u8 != 0) == (l.triggers is Some) && (f & 2u8 != 0) == (
    l.scripts is Some)) by {
        assert(3u8 & 3u8 == 3u8 && 3u8 & 1u8 != 0 && 3u8 & 2u8 != 0 && 1u8 & 3u8 == 1u8 && 1u8
            & 1u8 != 0 && 1u8 & 2u8 == 0 && 2u8 & 3u8 == 2u8 && 2u8 & 1u8 == 0 && 2u8 & 2u8 != 0
            && 0u8 & 3u8 == 0u8 && 0u8 & 1u8 == 0 && 0u8 & 2u8 == 0) by (bit_vector);
    }
    assert(f & 3u8 == f ==> f & 0xFCu8 == 0) by (bit_vector);
    assert(d.len() == c1 + trigger_section(l.triggers).len() + script_section(l.scripts).len());
    let c2: int = c1 + trigger_section(l.triggers).len();
    if l.scripts is Some {
        let ss = l.scripts->0;
        assert(d[c2] == ss.len() as u8);
        assert(ss.len() as u8 == ss.len());
        assert(d.subrange(c2 + 1, c2 + 1 + scripts_bytes(ss).len()) =~= scripts_bytes(ss));
        lemma_scan_ok(d, c2 + 1, ss);
    }
}

/// Writing then reading gives the level back: the bytes of a well-formed level
/// parse, and anything well-formed that writes to those bytes is that level.
pub proof fn lemma_write_then_parse_is_identity(l: LevelView, parsed: LevelView)
    requires
        l.wf(),
        parsed.wf(),
        level_bytes(parsed) == level_bytes(l),
    ensures
        parse_failure(level_bytes(l)) is None,
        parsed == l,
{
    lemma_well_formed_bytes_parse(l);
    lemma_level_bytes_injective(parsed, l);
}

pub proof fn lemma_byte_bits(b: u8, k: u8, j: u8, value: bool)
    requires
        k < 8,
        j < 8,
    ensures
        ((byte_with_bit(b, k, value) >> k) & 1u8 == 1u8) == value,
        j != k ==> (byte_with_bit(b, k, value) >> j) & 1u8 == (b >> j) & 1u8,
{
    if value {
        assert(k < 8 ==> ((b | (1u8 << k)) >> k) & 1u8 == 1u8) by (bit_vector);
        assert(k < 8 && j < 8 && j != k ==> ((b | (1u8 << k)) >> j) & 1u8 == (b >> j) & 1u8)
            by (bit_vector);
    } else {
        assert(k < 8 ==> ((b & !(1u8 << k)) >> k) & 1u8 == 0u8) by (bit_vector);
        assert(k < 8 && j < 8 && j != k ==> ((b & !(1u8 << k)) >> j) & 1u8 == (b >> j) & 1u8)
            by (bit_vector);
    }
}

/// Writing one tile's bit changes that bit to the value written and leaves
/// every other tile of every plane as it was.
pub proof fn lemma_bit_after_set(
    l: LevelView,
    plane: int,
    x: int,
    y: int,
    value: bool,
    p2: int,
    x2: int,
    y2: int,
)
    requires
        0 <= plane < l.planes.len(),
        0 <= x < l.width,
        0 <= y < l.height,
        l.planes[plane].len() == l.plane_len(),
    ensures
        l.with_bit(plane, x, y, value).bit(plane, x, y) == value,
        (p2 != plane || x2 != x || y2 != y) ==> l.with_bit(plane, x, y, value).bit(p2, x2, y2)
            == l.bit(p2, x2, y2),
{
    let idx = l.index_of(x, y);
    lemma_index_in_range(l.width, l.height, x, y);
    assert(idx / 8 < l.plane_len());
    let data = l.planes[plane];
    let nd = with_bit(data, idx, value);
    lemma_byte_bits(data[idx / 8], (7 - idx % 8) as u8, (7 - idx % 8) as u8, value);
    if p2 == plane && 0 <= x2 < l.width && 0 <= y2 < l.height && (x2 != x || y2 != y) {
        let idx2 = l.index_of(x2, y2);
        lemma_index_in_range(l.width, l.height, x2, y2);
        assert(idx2 != idx) by (nonlinear_arith)
            requires
                idx == y * l.width + x,
                idx2 == y2 * l.width + x2,
                0 <= x < l.width,
                0 <= x2 < l.width,
                x2 != x || y2 != y,
        ;
        if idx2 / 8 == idx / 8 {
            lemma_byte_bits(data[idx / 8], (7 - idx % 8) as u8, (7 - idx2 % 8) as u8, value);
            assert(bit_of(nd, idx2) == bit_of(data, idx2));
        } else {
            assert(nd[idx2 / 8] == data[idx2 / 8]);
        }
    }
}

} // verus!
