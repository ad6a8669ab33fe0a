//! Byte-level plumbing shared by the cipher and the chunk bodies: a fixed
//! eight-byte little-endian length field, and small helpers to build and
//! compare byte runs.

use vstd::prelude::*;

verus! {

/// Little-endian byte image of a 64-bit length, used to frame variable-length
/// fields inside encrypted chunk bodies.
pub open spec fn u64_le_bytes(n: u64) -> Seq<u8> {
    seq![
        (n & 0xff) as u8,
        ((n >> 8) & 0xff) as u8,
        ((n >> 16) & 0xff) as u8,
        ((n >> 24) & 0xff) as u8,
        ((n >> 32) & 0xff) as u8,
        ((n >> 40) & 0xff) as u8,
        ((n >> 48) & 0xff) as u8,
        ((n >> 56) & 0xff) as u8,
    ]
}

/// Distinct lengths have distinct little-endian images.
pub proof fn lemma_u64_le_bytes_injective(a: u64, b: u64)
    requires
        u64_le_bytes(a) == u64_le_bytes(b),
    ensures
        a == b,
{
    assert(u64_le_bytes(a)[0] == u64_le_bytes(b)[0]);
    assert(u64_le_bytes(a)[1] == u64_le_bytes(b)[1]);
    assert(u64_le_bytes(a)[2] == u64_le_bytes(b)[2]);
    assert(u64_le_bytes(a)[3] == u64_le_bytes(b)[3]);
    assert(u64_le_bytes(a)[4] == u64_le_bytes(b)[4]);
    assert(u64_le_bytes(a)[5] == u64_le_bytes(b)[5]);
    assert(u64_le_bytes(a)[6] == u64_le_bytes(b)[6]);
    assert(u64_le_bytes(a)[7] == u64_le_bytes(b)[7]);
    assert(a == b) by (bit_vector)
        requires
            ((a & 0xff) as u8) == ((b & 0xff) as u8),
            (((a >> 8) & 0xff) as u8) == (((b >> 8) & 0xff) as u8),
            (((a >> 16) & 0xff) as u8) == (((b >> 16) & 0xff) as u8),
            (((a >> 24) & 0xff) as u8) == (((b >> 24) & 0xff) as u8),
            (((a >> 32) & 0xff) as u8) == (((b >> 32) & 0xff) as u8),
            (((a >> 40) & 0xff) as u8) == (((b >> 40) & 0xff) as u8),
            (((a >> 48) & 0xff) as u8) == (((b >> 48) & 0xff) as u8),
            (((a >> 56) & 0xff) as u8) == (((b >> 56) & 0xff) as u8),
    ;
}

/// Appends the eight-byte little-endian image of `n` to `out`.
pub fn append_u64_le(out: &mut Vec<u8>, n: u64)
    ensures
        final(out)@ == old(out)@ + u64_le_bytes(n),
{
    out.push((n & 0xff) as u8);
    out.push(((n >> 8) & 0xff) as u8);
    out.push(((n >> 16) & 0xff) as u8);
    out.push(((n >> 24) & 0xff) as u8);
    out.push(((n >> 32) & 0xff) as u8);
    out.push(((n >> 40) & 0xff) as u8);
    out.push(((n >> 48) & 0xff) as u8);
    out.push(((n >> 56) & 0xff) as u8);
    assert(out@ =~= old(out)@ + u64_le_bytes(n));
}

/// True when the eight bytes of `b` starting at `off` are the little-endian
/// image of `n`.
pub fn matches_u64_le(b: &[u8], off: usize, n: u64) -> (r: bool)
    requires
        off + 8 <= b@.len(),
    ensures
        r == (b@.subrange(off as int, off + 8) == u64_le_bytes(n)),
{
    let r = b[off] == (n & 0xff) as u8 && b[off + 1] == ((n >> 8) & 0xff) as u8 && b[off + 2]
        == ((n >> 16) & 0xff) as u8 && b[off + 3] == ((n >> 24) & 0xff) as u8 && b[off + 4] == ((n
        >> 32) & 0xff) as u8 && b[off + 5] == ((n >> 40) & 0xff) as u8 && b[off + 6] == ((n >> 48)
        & 0xff) as u8 && b[off + 7] == ((n >> 56) & 0xff) as u8;
    if r {
        assert(b@.subrange(off as int, off + 8) =~= u64_le_bytes(n));
    } else {
        assert(b@.subrange(off as int, off + 8) != u64_le_bytes(n)) by {
            if b@.subrange(off as int, off + 8) == u64_le_bytes(n) {
                assert(forall|k: int|
                    0 <= k < 8 ==> b@[off + k] == #[trigger] u64_le_bytes(n)[k]) by {
                    assert(forall|k: int|
                        0 <= k < 8 ==> b@[off + k] == #[trigger] b@.subrange(
                            off as int,
                            off + 8,
                        )[k]);
                }
            }
        }
    }
    r
}

/// True when the bytes of `b` starting at `off` continue with exactly `m`.
pub fn matches_bytes(b: &[u8], off: usize, m: &Vec<u8>) -> (r: bool)
    requires
        off + m@.len() <= b@.len(),
    ensures
        r == (b@.subrange(off as int, off + m@.len()) == m@),
{
    let blen = b.len();
    let n = m.len();
    for i in 0..n
        invariant
            off + n <= blen == b@.len(),
            n == m@.len(),
            forall|k: int| 0 <= k < i ==> b@[off + k] == m@[k],
    {
        if b[off + i] != m[i] {
            assert(b@.subrange(off as int, off + m@.len())[i as int] != m@[i as int]);
            return false;
        }
    }
    assert(b@.subrange(off as int, off + m@.len()) =~= m@);
    true
}

/// Copies the bytes of `b` from `off` to the end into a fresh vector.
pub fn tail_from(b: &[u8], off: usize) -> (r: Vec<u8>)
    requires
        off <= b@.len(),
    ensures
        r@ == b@.skip(off as int),
{
    let mut out: Vec<u8> = Vec::new();
    let n = b.len();
    for i in off..n
        invariant
            off <= n == b@.len(),
            out@ =~= b@.subrange(off as int, i as int),
    {
        out.push(b[i]);
    }
    assert(out@ =~= b@.skip(off as int));
    out
}

/// Copies `v` byte for byte.
pub fn copy_bytes(v: &Vec<u8>) -> (r: Vec<u8>)
    ensures
        r@ == v@,
{
    let mut out: Vec<u8> = Vec::new();
    let n = v.len();
    for i in 0..n
        invariant
            n == v@.len(),
            out@ =~= v@.subrange(0, i as int),
    {
        out.push(v[i]);
    }
    assert(out@ =~= v@);
    out
}

} // verus!
