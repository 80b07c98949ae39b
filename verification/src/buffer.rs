//! Byte-buffer building blocks shared by the encoders.
use vstd::prelude::*;
use vstd::bytes::*;

verus! {

/// `n` zero bytes.
pub open spec fn zeros(n: int) -> Seq<u8> {
    Seq::new(n as nat, |_i: int| 0u8)
}

/// Appends `src[start..end]` to `out`.
pub(crate) fn push_range(out: &mut Vec<u8>, src: &[u8], start: usize, end: usize)
    requires
        start <= end <= src@.len(),
    ensures
        final(out)@ == old(out)@ + src@.subrange(start as int, end as int),
{
    let ghost base = out@;
    let mut i = start;
    while i < end
        invariant
            start <= i <= end <= src@.len(),
            out@ == base + src@.subrange(start as int, i as int),
        decreases end - i,
    {
        out.push(src[i]);
        i = i + 1;
        assert(out@ =~= base + src@.subrange(start as int, i as int));
    }
}

/// Appends `n` zero bytes to `out`.
pub(crate) fn push_zeros(out: &mut Vec<u8>, n: usize)
    ensures
        final(out)@ == old(out)@ + zeros(n as int),
{
    let ghost base = out@;
    let mut i: usize = 0;
    while i < n
        invariant
            i <= n,
            out@ == base + zeros(i as int),
        decreases n - i,
    {
        out.push(0u8);
        i = i + 1;
        assert(out@ =~= base + zeros(i as int));
    }
}

/// Appends the little-endian bytes of `v` to `out`.
pub(crate) fn push_le_u32(out: &mut Vec<u8>, v: u32)
    ensures
        final(out)@ == old(out)@ + spec_u32_to_le_bytes(v),
{
    let b = u32_to_le_bytes(v);
    let n = b.len();
    push_range(out, b.as_slice(), 0, n);
    assert(b@.subrange(0, n as int) =~= b@);
}

/// Appends the little-endian bytes of `v` to `out`.
pub(crate) fn push_le_u16(out: &mut Vec<u8>, v: u16)
    ensures
        final(out)@ == old(out)@ + spec_u16_to_le_bytes(v),
{
    let b = u16_to_le_bytes(v);
    let n = b.len();
    push_range(out, b.as_slice(), 0, n);
    assert(b@.subrange(0, n as int) =~= b@);
}

} // verus!
