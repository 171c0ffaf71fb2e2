//! Small byte-buffer helpers shared by the binary formats.
use vstd::prelude::*;

verus! {

/// Append every byte of `src` to `out`, in order.
pub fn append_slice(out: &mut Vec<u8>, src: &[u8])
    ensures
        final(out)@ == old(out)@ + src@,
{
    let ghost start = out@;
    let mut i: usize = 0;
    while i < src.len()
        invariant
            i <= src.len(),
            out@ == start + src@.take(i as int),
        decreases src.len() - i,
    {
        out.push(src[i]);
        i = i + 1;
        assert(src@.take(i as int) == src@.take((i - 1) as int).push(src@[i - 1]));
    }
    assert(src@.take(i as int) == src@);
}

/// A fresh vector holding `data[start..end]`.
pub fn copy_range(data: &[u8], start: usize, end: usize) -> (v: Vec<u8>)
    requires
        start <= end <= data.len(),
    ensures
        v@ == data@.subrange(start as int, end as int),
{
    let mut v: Vec<u8> = Vec::new();
    let mut i: usize = start;
    while i < end
        invariant
            start <= i <= end <= data.len(),
            v@ == data@.subrange(start as int, i as int),
        decreases end - i,
    {
        v.push(data[i]);
        i = i + 1;
        assert(data@.subrange(start as int, i as int) == data@.subrange(
            start as int,
            (i - 1) as int,
        ).push(data@[i - 1]));
    }
    v
}

/// A subrange splits at any point inside it.
pub proof fn lemma_split(d: Seq<u8>, a: int, b: int, c: int)
    requires
        0 <= a <= b <= c <= d.len(),
    ensures
        d.subrange(a, c) == d.subrange(a, b) + d.subrange(b, c),
{
    assert(d.subrange(a, c) =~= d.subrange(a, b) + d.subrange(b, c));
}

/// A vector of `n` zero bytes.
pub fn zeros(n: usize) -> (v: Vec<u8>)
    ensures
        v@ == Seq::new(n as nat, |i: int| 0u8),
{
    let mut v: Vec<u8> = Vec::new();
    let mut i: usize = 0;
    while i < n
        invariant
            i <= n,
            v@ == Seq::new(i as nat, |k: int| 0u8),
        decreases n - i,
    {
        v.push(0u8);
        i = i + 1;
        assert(v@ == Seq::new(i as nat, |k: int| 0u8));
    }
    v
}

} // verus!
