use crate::bytes::u64_at;
use vstd::bytes::{lemma_auto_spec_u64_to_from_le_bytes, spec_u64_to_le_bytes, u64_from_le_bytes, u64_to_le_bytes};
use vstd::prelude::*;
use vstd::slice::slice_subrange;

verus! {

/// `x` behind its length as a little-endian `u64`.
pub open spec fn unit_bytes(x: Seq<u8>) -> Seq<u8> {
    spec_u64_to_le_bytes(x.len() as u64) + x
}

/// The payload of a length-prefixed unit whose prefix matches its remaining length.
pub open spec fn parse_unit(b: Seq<u8>) -> Option<Seq<u8>> {
    if b.len() >= 8 && u64_at(b, 0) == b.len() - 8 {
        Some(b.subrange(8, b.len() as int))
    } else {
        None
    }
}

/// Bytes of an index entry: a unit holding the key unit followed by the value unit.
pub open spec fn entry_bytes(key: Seq<u8>, value: Seq<u8>) -> Seq<u8> {
    unit_bytes(unit_bytes(key) + unit_bytes(value))
}

/// Size of an entry with keys of `key_size` bytes and values of `value_size` bytes.
pub open spec fn entry_size(key_size: int, value_size: int) -> int {
    24 + key_size + value_size
}

/// Key and value of an entry with keys of `key_size` and values of
/// `value_size` bytes, if it has the size of such an entry and every length
/// prefix in it is right.
pub open spec fn parse_entry(b: Seq<u8>, key_size: int, value_size: int) -> Option<(Seq<u8>, Seq<u8>)> {
    if b.len() != entry_size(key_size, value_size) {
        None
    } else {
        parse_framed(b, key_size)
    }
}

/// Key and value of an entry whose keys are `key_size` bytes long, if every
/// length prefix in it is right, whatever its size.
pub open spec fn parse_framed(b: Seq<u8>, key_size: int) -> Option<(Seq<u8>, Seq<u8>)> {
    match parse_unit(b) {
        None => None,
        Some(d) => if d.len() < 8 + key_size || key_size < 0 {
            None
        } else {
            match (
                parse_unit(d.subrange(0, 8 + key_size)),
                parse_unit(d.subrange(8 + key_size, d.len() as int)),
            ) {
                (Some(k), Some(v)) => Some((k, v)),
                _ => None,
            }
        },
    }
}

/// A unit framed from `x` parses back to `x`.
pub proof fn lemma_unit_round_trip(x: Seq<u8>)
    requires
        x.len() + 8 <= u64::MAX,
    ensures
        unit_bytes(x).len() == x.len() + 8,
        parse_unit(unit_bytes(x)) == Some(x),
{
    lemma_auto_spec_u64_to_from_le_bytes();
    let b = unit_bytes(x);
    assert(b.subrange(0, 8) =~= spec_u64_to_le_bytes(x.len() as u64));
    assert(b.subrange(8, b.len() as int) =~= x);
}

/// A parsed entry's key and value have the sizes it was parsed with.
pub proof fn lemma_parsed_sizes(b: Seq<u8>, key_size: int, value_size: int)
    ensures
        match parse_entry(b, key_size, value_size) {
            Some((k, v)) => k.len() == key_size && v.len() == value_size,
            None => true,
        },
{
}

/// An entry framed from a key and a value parses back to them.
pub proof fn lemma_entry_round_trip(key: Seq<u8>, value: Seq<u8>)
    requires
        entry_size(key.len() as int, value.len() as int) <= u64::MAX,
    ensures
        entry_bytes(key, value).len() == entry_size(key.len() as int, value.len() as int),
        parse_entry(entry_bytes(key, value), key.len() as int, value.len() as int) == Some((key, value)),
{
    lemma_unit_round_trip(key);
    lemma_unit_round_trip(value);
    let d = unit_bytes(key) + unit_bytes(value);
    lemma_unit_round_trip(d);
    assert(d.subrange(0, 8 + key.len() as int) =~= unit_bytes(key));
    assert(d.subrange(8 + key.len() as int, d.len() as int) =~= unit_bytes(value));
}

/// A length-prefixed byte string.
#[derive(Debug)]
pub struct IndexDataUnit {
    pub data: Vec<u8>,
}

impl IndexDataUnit {
    /// A unit holding `data`.
    pub fn new(data: Vec<u8>) -> (r: Self)
        ensures
            r.data@ == data@,
    {
        IndexDataUnit { data }
    }

    /// The framed bytes: the length, then the data.
    pub fn to_bytes(&self) -> (r: Vec<u8>)
        ensures
            r@ == unit_bytes(self.data@),
    {
        let mut out = u64_to_le_bytes(self.data.len() as u64);
        let ghost head = out@;
        let mut k: usize = 0;
        while k < self.data.len()
            invariant
                k <= self.data@.len(),
                head == spec_u64_to_le_bytes(self.data@.len() as u64),
                out@ =~= head + self.data@.subrange(0, k as int),
            decreases self.data@.len() - k,
        {
            out.push(self.data[k]);
            k = k + 1;
        }
        proof {
            assert(self.data@.subrange(0, k as int) =~= self.data@);
        }
        out
    }

    /// Unframes `b`; `None` unless its length prefix equals the length of the rest.
    pub fn try_from_bytes(b: &[u8]) -> (r: Option<Self>)
        ensures
            match parse_unit(b@) {
                Some(x) => r matches Some(u) && u.data@ == x,
                None => r is None,
            },
    {
        if b.len() < 8 {
            return None;
        }
        let len = u64_from_le_bytes(slice_subrange(b, 0, 8));
        if len != (b.len() - 8) as u64 {
            return None;
        }
        let mut data: Vec<u8> = Vec::new();
        let mut k: usize = 8;
        while k < b.len()
            invariant
                8 <= k <= b@.len(),
                data@ =~= b@.subrange(8, k as int),
            decreases b@.len() - k,
        {
            data.push(b[k]);
            k = k + 1;
        }
        Some(IndexDataUnit { data })
    }
}

} // verus!
