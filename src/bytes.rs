use vstd::bytes::{
    lemma_auto_spec_u64_to_from_le_bytes, spec_u64_from_le_bytes, spec_u64_to_le_bytes,
    spec_u64_to_le_bytes_to_open, u64_from_le_bytes, u64_to_le_bytes,
};
use vstd::prelude::*;

verus! {

/// The little-endian `u64` stored at byte `pos` of `f`.
pub open spec fn u64_at(f: Seq<u8>, pos: int) -> u64 {
    spec_u64_from_le_bytes(f.subrange(pos, pos + 8))
}

/// Two byte sequences that agree on `[pos, pos + 8)` hold the same `u64` there.
pub proof fn lemma_u64_at_same(a: Seq<u8>, b: Seq<u8>, pos: int)
    requires
        0 <= pos,
        pos + 8 <= a.len(),
        pos + 8 <= b.len(),
        forall|j: int| pos <= j < pos + 8 ==> a[j] == b[j],
    ensures
        u64_at(a, pos) == u64_at(b, pos),
{
    assert(a.subrange(pos, pos + 8) =~= b.subrange(pos, pos + 8));
}

/// Eight zero bytes hold the value zero.
pub proof fn lemma_u64_at_zero(f: Seq<u8>, pos: int)
    requires
        0 <= pos,
        pos + 8 <= f.len(),
        forall|j: int| pos <= j < pos + 8 ==> f[j] == 0,
    ensures
        u64_at(f, pos) == 0,
{
    lemma_auto_spec_u64_to_from_le_bytes();
    spec_u64_to_le_bytes_to_open(0u64);
    assert(((0u64 & 0xff) as u8) == 0 && (((0u64 >> 8) & 0xff) as u8) == 0 && (((0u64 >> 16)
        & 0xff) as u8) == 0 && (((0u64 >> 24) & 0xff) as u8) == 0 && (((0u64 >> 32) & 0xff) as u8)
        == 0 && (((0u64 >> 40) & 0xff) as u8) == 0 && (((0u64 >> 48) & 0xff) as u8) == 0 && (((0u64
        >> 56) & 0xff) as u8) == 0) by (bit_vector);
    assert(f.subrange(pos, pos + 8) =~= spec_u64_to_le_bytes(0u64));
}

/// Reads the little-endian `u64` at byte `pos`.
pub fn read_u64_at(f: &Vec<u8>, pos: usize) -> (r: u64)
    requires
        pos + 8 <= f@.len(),
    ensures
        r == u64_at(f@, pos as int),
{
    let mut buf: Vec<u8> = Vec::new();
    let n = f.len();
    let mut k: usize = 0;
    while k < 8
        invariant
            k <= 8,
            n == f@.len(),
            pos + 8 <= f@.len(),
            buf@ =~= f@.subrange(pos as int, pos + k),
        decreases 8 - k,
    {
        buf.push(f[pos + k]);
        k = k + 1;
    }
    u64_from_le_bytes(buf.as_slice())
}

/// Overwrites the eight bytes at `pos` with the little-endian form of `v`.
pub fn write_u64_at(f: &mut Vec<u8>, pos: usize, v: u64)
    requires
        pos + 8 <= old(f)@.len(),
    ensures
        final(f)@.len() == old(f)@.len(),
        u64_at(final(f)@, pos as int) == v,
        forall|j: int|
            0 <= j < old(f)@.len() && !(pos <= j < pos + 8) ==> #[trigger] final(f)@[j] == old(f)@[j],
{
    let b = u64_to_le_bytes(v);
    let n = f.len();
    let mut k: usize = 0;
    while k < 8
        invariant
            k <= 8,
            n == f@.len(),
            b@ == spec_u64_to_le_bytes(v),
            b@.len() == 8,
            pos + 8 <= f@.len(),
            f@.len() == old(f)@.len(),
            forall|j: int| 0 <= j < k ==> f@[pos + j] == b@[j],
            forall|j: int|
                0 <= j < old(f)@.len() && !(pos <= j < pos + k) ==> #[trigger] f@[j] == old(f)@[j],
        decreases 8 - k,
    {
        f.set(pos + k, b[k]);
        k = k + 1;
    }
    proof {
        lemma_auto_spec_u64_to_from_le_bytes();
        assert(f@.subrange(pos as int, pos + 8) =~= spec_u64_to_le_bytes(v));
    }
}

} // verus!
