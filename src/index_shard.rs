use crate::data_shard::DataShard;
use crate::errors::ShardErrors;
use crate::header::offset_pos;
use crate::index_data_unit::{
    entry_bytes, entry_size, lemma_entry_round_trip, parse_entry, unit_bytes, IndexDataUnit,
};
use crate::key_order::{compare_keys, key_le, key_lt, lemma_key_order};
use crate::map_shard::{concat_all, lemma_concat_all_index, lemma_concat_all_take, MapShard};
use vstd::prelude::*;
use vstd::slice::slice_subrange;

verus! {

/// Key of record `i` of `recs`, if it parses as an entry with `key_size`-byte keys.
pub open spec fn key_at(recs: Seq<Seq<u8>>, i: int, key_size: int, value_size: int) -> Option<Seq<u8>> {
    match parse_entry(recs[i], key_size, value_size) {
        Some((k, _)) => Some(k),
        None => None,
    }
}

/// Key of the entry `b`, meaningful when it parses.
pub open spec fn entry_key(b: Seq<u8>, key_size: int, value_size: int) -> Seq<u8> {
    match parse_entry(b, key_size, value_size) {
        Some((k, _)) => k,
        None => Seq::empty(),
    }
}

/// The keys of the well-formed records of `recs` never decrease.
pub open spec fn keys_sorted(recs: Seq<Seq<u8>>, key_size: int, value_size: int) -> bool {
    forall|i: int, j: int|
        0 <= i <= j < recs.len() && #[trigger] key_at(recs, i, key_size, value_size) is Some && #[trigger] key_at(
            recs,
            j,
            key_size, value_size,) is Some ==> key_le(key_at(recs, i, key_size, value_size)->0, key_at(recs, j, key_size, value_size)->0)
}

/// Every record is a well-formed entry, and the keys never decrease.
pub open spec fn entries_sorted(recs: Seq<Seq<u8>>, key_size: int, value_size: int) -> bool {
    &&& forall|i: int| 0 <= i < recs.len() ==> #[trigger] key_at(recs, i, key_size, value_size) is Some
    &&& forall|i: int| 0 <= i < recs.len() ==> #[trigger] recs[i].len() == entry_size(key_size, value_size)
    &&& keys_sorted(recs, key_size, value_size)
}

/// `e` stands at position `p` after bubbling it up from the end of `s`: every
/// record after `p` has a greater key, and the one before `p` (if any) could
/// not be passed, because its key is not greater, it does not parse, or its
/// size differs.
pub open spec fn bubbled(s: Seq<Seq<u8>>, e: Seq<u8>, p: int, key_size: int, value_size: int) -> bool {
    &&& 0 <= p <= s.len()
    &&& p < s.len() ==> parse_entry(e, key_size, value_size) is Some
    &&& forall|j: int|
        p <= j < s.len() ==> #[trigger] key_at(s, j, key_size, value_size) is Some && s[j].len() == e.len()
            && key_lt(entry_key(e, key_size, value_size), key_at(s, j, key_size, value_size)->0)
    &&& p > 0 ==> (parse_entry(e, key_size, value_size) is None || key_at(s, p - 1, key_size, value_size) is None
        || s[p - 1].len() != e.len() || !key_lt(
        entry_key(e, key_size, value_size),
        key_at(s, p - 1, key_size, value_size)->0,
    ))
}

/// Size of an entry with keys of `key_size` and values of `value_size` bytes.
pub fn get_entry_size(key_size: usize, value_size: usize) -> (r: usize)
    requires
        entry_size(key_size as int, value_size as int) <= usize::MAX,
    ensures
        r == entry_size(key_size as int, value_size as int),
{
    8 + (8 + key_size) + (8 + value_size)
}

/// A sorted key/value store of fixed-size entries over a map shard.
#[derive(Debug)]
pub struct IndexShard {
    pub data: MapShard,
    pub binary_order: bool,
    pub key_size: usize,
    pub value_size: usize,
}

impl IndexShard {
    /// The map shard is well formed and an entry's size fits in memory and in a `u64`.
    pub open spec fn wf(&self) -> bool {
        &&& self.data.wf()
        &&& entry_size(self.key_size as int, self.value_size as int) <= usize::MAX
        &&& entry_size(self.key_size as int, self.value_size as int) <= u64::MAX
    }

    /// Records of the current shard.
    pub open spec fn current(&self) -> Seq<Seq<u8>> {
        self.data.current_master_shard.records()
    }

    /// Key size, as an integer.
    pub open spec fn ks(&self) -> int {
        self.key_size as int
    }

    /// Value size, as an integer.
    pub open spec fn vs(&self) -> int {
        self.value_size as int
    }

    /// Room to append one more entry, and a global index for it.
    pub open spec fn can_insert(&self) -> bool {
        &&& self.data.current_master_shard.image().len() + entry_size(
            self.key_size as int,
            self.value_size as int,
        ) <= usize::MAX
        &&& offset_pos(self.data.max_offsets as int) + entry_size(
            self.key_size as int,
            self.value_size as int,
        ) <= usize::MAX
        &&& self.data.elements().len() < u64::MAX
    }

    /// Which of the current shard's entries and which past shards could hold
    /// `target`, given that the search only covers shards with sorted keys.
    pub open spec fn absent_where_sorted(&self, target: Seq<u8>) -> bool {
        &&& keys_sorted(self.current(), self.ks(), self.vs()) ==> forall|i: int|
            0 <= i < self.current().len() ==> #[trigger] key_at(self.current(), i, self.ks(), self.vs())
                != Some(target)
        &&& forall|j: int, i: int|
            0 <= j < self.data.past_records().len() && keys_sorted(
                self.data.past_records()[j],
                self.ks(), self.vs(),) && 0 <= i < self.data.past_records()[j].len() ==> #[trigger] key_at(
                self.data.past_records()[j],
                i,
                self.ks(), self.vs(),) != Some(target)
    }

    /// The shards searched before global index `g` of a past shard hold no
    /// `target` where their keys are sorted: the current shard, then the past
    /// shards that end at or before `g`.
    pub open spec fn searched_before(&self, target: Seq<u8>, g: int) -> bool {
        &&& keys_sorted(self.current(), self.ks(), self.vs()) ==> forall|i: int|
            0 <= i < self.current().len() ==> #[trigger] key_at(self.current(), i, self.ks(), self.vs())
                != Some(target)
        &&& forall|j: int, i: int|
            0 <= j < self.data.past_records().len() && concat_all(self.data.past_records().take(j + 1)).len()
                <= g && keys_sorted(self.data.past_records()[j], self.ks(), self.vs()) && 0 <= i
                < self.data.past_records()[j].len() ==> #[trigger] key_at(
                self.data.past_records()[j],
                i,
                self.ks(),
                self.vs(),
            ) != Some(target)
    }

    /// What `binary_search` returns: a global index whose entry holds `target`,
    /// or nothing, and then no shard with sorted keys holds `target`.
    pub open spec fn search_post(&self, target: Seq<u8>, r: Option<(u64, Vec<u8>, Vec<u8>)>) -> bool {
        match r {
            Some((g, k, v)) => {
                &&& g < concat_all(self.data.past_records()).len() ==> self.searched_before(target, g as int)
                &&& g < self.data.elements().len()
                &&& parse_entry(self.data.elements()[g as int], self.ks(), self.vs()) == Some((k@, v@))
                &&& k@ == target
            },
            None => self.absent_where_sorted(target),
        }
    }

    /// What `insert(key, value)` leaves behind, from `old` to `new`.
    pub open spec fn inserted(old: IndexShard, new: IndexShard, key: Seq<u8>, value: Seq<u8>) -> bool {
        let e = entry_bytes(key, value);
        &&& new.wf()
        &&& new.binary_order == old.binary_order
        &&& new.key_size == old.key_size
        &&& new.value_size == old.value_size
        &&& new.data.max_offsets == old.data.max_offsets
        &&& exists|q: int|
            #![trigger old.data.elements().take(q)]
            0 <= q <= old.data.elements().len() && new.data.elements() == old.data.elements().take(q)
                + seq![e] + old.data.elements().skip(q)
        &&& !old.binary_order ==> new.data.elements() == old.data.elements().push(e)
        &&& old.current().len() < old.data.current_master_shard.capacity() ==> {
            &&& new.data.past_records() == old.data.past_records()
            &&& old.binary_order ==> exists|p: int|
                #![trigger bubbled(old.current(), e, p, old.ks(), old.vs())]
                bubbled(old.current(), e, p, old.ks(), old.vs()) && new.current() == old.current().take(p)
                    + seq![e] + old.current().skip(p)
        }
        &&& old.current().len() == old.data.current_master_shard.capacity() ==> {
            &&& new.data.past_records() == old.data.past_records().push(old.current())
            &&& new.current() == seq![e]
        }
        &&& old.binary_order && entries_sorted(old.current(), old.ks(), old.value_size as int) ==> entries_sorted(new.current(), new.ks(), new.value_size as int)
    }

    /// An index over the shard images given oldest first (see `MapShard::new`),
    /// with keys of `key_size` and values of `value_size` bytes, up to
    /// `max_capacity` entries per shard, kept in key order on insert when
    /// `binary_order` is set (default: not).
    pub fn new(
        images: Vec<Vec<u8>>,
        key_size: usize,
        value_size: usize,
        max_capacity: Option<u64>,
        binary_order: Option<bool>,
    ) -> (r: Result<Self, ShardErrors>)
        requires
            entry_size(key_size as int, value_size as int) <= usize::MAX,
            entry_size(key_size as int, value_size as int) <= u64::MAX,
            offset_pos(
                match max_capacity {
                    Some(m) => m as int,
                    None => crate::header::DEFAULT_MAX_OFFSETS as int,
                },
            ) <= usize::MAX,
        ensures
            r is Ok <==> (match max_capacity {
                Some(m) => m,
                None => crate::header::DEFAULT_MAX_OFFSETS,
            }) >= 1 && forall|i: int|
                0 <= i < images@.len() ==> #[trigger] images@[i]@.len() == 0
                    || crate::header::image_ok(images@[i]@),
            r matches Ok(s) ==> {
                &&& s.wf()
                &&& s.key_size == key_size
                &&& s.value_size == value_size
                &&& s.binary_order == match binary_order {
                    Some(b) => b,
                    None => false,
                }
                &&& images@.len() == 0 ==> s.data.elements() == Seq::<Seq<u8>>::empty()
                &&& MapShard::opened_from(
                    s.data,
                    crate::data_shard::row_views(images@),
                    match max_capacity {
                        Some(m) => m,
                        None => crate::header::DEFAULT_MAX_OFFSETS,
                    },
                )
            },
            r matches Err(e) ==> e == ShardErrors::OutOfPositions || e
                == ShardErrors::InvalidHeader,
    {
        let shard_collection = MapShard::new(images, max_capacity);
        match shard_collection {
            Ok(data) => Ok(
                IndexShard {
                    data,
                    binary_order: match binary_order {
                        Some(b) => b,
                        None => false,
                    },
                    key_size,
                    value_size,
                },
            ),
            Err(e) => Err(e),
        }
    }

    /// Splits the bytes of an entry into its key unit and value unit, keeping the bytes.
    pub fn build_entry_from_vec(&self, el: Vec<u8>) -> (r: Option<
        (IndexDataUnit, IndexDataUnit, Vec<u8>),
    >)
        ensures
            match parse_entry(el@, self.key_size as int, self.value_size as int) {
                Some((k, v)) => r matches Some((ku, vu, raw)) && ku.data@ == k && vu.data@ == v
                    && raw@ == el@,
                None => r is None,
            },
    {
        if el.len() < 24 || el.len() - 24 < self.key_size || el.len() - 24 - self.key_size
            != self.value_size {
            return None;
        }
        let index_unit = match IndexDataUnit::try_from_bytes(el.as_slice()) {
            Some(u) => u,
            None => {
                return None;
            },
        };
        let data = index_unit.data;
        if data.len() < 8 || data.len() - 8 < self.key_size {
            return None;
        }
        let split = 8 + self.key_size;
        let key = match IndexDataUnit::try_from_bytes(slice_subrange(data.as_slice(), 0, split)) {
            Some(u) => u,
            None => {
                return None;
            },
        };
        let value = match IndexDataUnit::try_from_bytes(
            slice_subrange(data.as_slice(), split, data.len()),
        ) {
            Some(u) => u,
            None => {
                return None;
            },
        };
        Some((key, value, el))
    }

    /// The bytes in slot `index` of `shard`.
    pub fn get_entry_from_shard(&self, shard: &DataShard, index: usize) -> (r: Result<
        Vec<u8>,
        ShardErrors,
    >)
        requires
            shard.wf(),
        ensures
            r is Ok <==> index < shard.records().len(),
            r matches Ok(b) ==> b@ == shard.records()[index as int],
    {
        shard.read_item_from_index(index)
    }

    /// The entry at global index `index`, or at slot `index` of the current
    /// shard when `global` is false; `None` when there is none or it is malformed.
    pub fn get_entry(&self, index: usize, global: bool) -> (r: Option<
        (IndexDataUnit, IndexDataUnit, Vec<u8>),
    >)
        requires
            self.wf(),
        ensures
            ({
                let recs = if global {
                    self.data.elements()
                } else {
                    self.current()
                };
                if index < recs.len() && parse_entry(recs[index as int], self.ks(), self.vs()) is Some {
                    r matches Some((ku, vu, raw)) && raw@ == recs[index as int] && (ku.data@, vu.data@)
                        == parse_entry(recs[index as int], self.ks(), self.vs())->0
                } else {
                    r is None
                }
            }),
    {
        let get_el = if !global {
            self.data.get_element_from_master(index)
        } else {
            self.data.get_element(index)
        };
        match get_el {
            Ok(el) => self.build_entry_from_vec(el),
            Err(_) => None,
        }
    }

    /// Key, value and raw bytes of the entry that `get_entry` finds.
    pub fn get_kv(&self, index: usize, global: bool) -> (r: Option<(Vec<u8>, Vec<u8>, Vec<u8>)>)
        requires
            self.wf(),
        ensures
            ({
                let recs = if global {
                    self.data.elements()
                } else {
                    self.current()
                };
                if index < recs.len() && parse_entry(recs[index as int], self.ks(), self.vs()) is Some {
                    r matches Some((k, v, raw)) && raw@ == recs[index as int] && (k@, v@)
                        == parse_entry(recs[index as int], self.ks(), self.vs())->0
                } else {
                    r is None
                }
            }),
    {
        let entry = self.get_entry(index, global);
        match entry {
            None => None,
            Some((key_unit, val_unit, el)) => Some(self.build_kv(key_unit, val_unit, el)),
        }
    }

    /// Key, value and raw bytes out of the units of an entry.
    pub fn build_kv(&self, key_unit: IndexDataUnit, val_unit: IndexDataUnit, el: Vec<u8>) -> (r: (
        Vec<u8>,
        Vec<u8>,
        Vec<u8>,
    ))
        ensures
            r.0@ == key_unit.data@,
            r.1@ == val_unit.data@,
            r.2@ == el@,
    {
        (key_unit.data, val_unit.data, el)
    }

    /// Frames `key` and `value` as the payload of an entry.
    fn build_entry(&self, key: Vec<u8>, value: Vec<u8>) -> (r: IndexDataUnit)
        ensures
            unit_bytes(r.data@) == entry_bytes(key@, value@),
    {
        let mut entry: Vec<u8> = Vec::new();
        let key_vec_val = IndexDataUnit::new(key).to_bytes();
        let value_vec_val = IndexDataUnit::new(value).to_bytes();
        let mut k: usize = 0;
        while k < key_vec_val.len()
            invariant
                k <= key_vec_val@.len(),
                entry@ =~= key_vec_val@.subrange(0, k as int),
            decreases key_vec_val@.len() - k,
        {
            entry.push(key_vec_val[k]);
            k = k + 1;
        }
        k = 0;
        while k < value_vec_val.len()
            invariant
                k <= value_vec_val@.len(),
                entry@ =~= key_vec_val@ + value_vec_val@.subrange(0, k as int),
            decreases value_vec_val@.len() - k,
        {
            entry.push(value_vec_val[k]);
            k = k + 1;
        }
        proof {
            assert(key_vec_val@.subrange(0, key_vec_val@.len() as int) =~= key_vec_val@);
            assert(value_vec_val@.subrange(0, value_vec_val@.len() as int) =~= value_vec_val@);
        }
        IndexDataUnit::new(entry)
    }

    /// Inserts each pair in order, as `insert` does.
    pub fn raw_insert(&mut self, data: Vec<(Vec<u8>, Vec<u8>)>)
        requires
            old(self).wf(),
            forall|i: int|
                0 <= i < data@.len() ==> #[trigger] data@[i].0@.len() == old(self).key_size
                    && data@[i].1@.len() == old(self).value_size,
            old(self).data.current_master_shard.image().len() + data@.len() * entry_size(
                old(self).key_size as int,
                old(self).value_size as int,
            ) <= usize::MAX,
            offset_pos(old(self).data.max_offsets as int) + data@.len() * entry_size(
                old(self).key_size as int,
                old(self).value_size as int,
            ) <= usize::MAX,
            old(self).data.elements().len() + data@.len() <= u64::MAX,
        ensures
            final(self).wf(),
            final(self).binary_order == old(self).binary_order,
            final(self).key_size == old(self).key_size,
            final(self).value_size == old(self).value_size,
            final(self).data.elements().len() == old(self).data.elements().len() + data@.len(),
            final(self).data.elements().to_multiset() == old(self).data.elements().to_multiset().add(
                data@.map_values(|p: (Vec<u8>, Vec<u8>)| entry_bytes(p.0@, p.1@)).to_multiset(),
            ),
            forall|x: Seq<u8>| #[trigger] old(self).data.elements().contains(x)
                ==> final(self).data.elements().contains(x),
            forall|i: int|
                0 <= i < data@.len() ==> final(self).data.elements().contains(
                    entry_bytes(#[trigger] data@[i].0@, data@[i].1@),
                ),
            !old(self).binary_order ==> final(self).data.elements() == old(self).data.elements()
                + data@.map_values(|p: (Vec<u8>, Vec<u8>)| entry_bytes(p.0@, p.1@)),
            old(self).binary_order && entries_sorted(old(self).current(), old(self).ks(), old(self).value_size as int) ==> entries_sorted(final(self).current(), final(self).ks(), final(self).value_size as int),
    {
        let ghost es = data@.map_values(|p: (Vec<u8>, Vec<u8>)| entry_bytes(p.0@, p.1@));
        let ghost size = entry_size(self.key_size as int, self.value_size as int);
        let ghost sorted0 = entries_sorted(self.current(), self.ks(), self.vs());
        let ghost base_cur: int = self.data.current_master_shard.image().len() as int;
        let ghost base_cfg = offset_pos(self.data.max_offsets as int);
        let n = data.len();
        let mut rest = data;
        proof {
            assert(rest@.skip(0) =~= rest@);
            assert(es.take(0) =~= Seq::<Seq<u8>>::empty());
            vstd::seq_lib::to_multiset_len(es.take(0));
            vstd::multiset::lemma_multiset_empty_len(es.take(0).to_multiset());
            assert(self.data.elements().to_multiset() =~= self.data.elements().to_multiset().add(
                es.take(0).to_multiset(),
            ));
        }
        let mut i: usize = 0;
        while i < n
            invariant
                self.wf(),
                n == data@.len(),
                i <= n,
                rest@ == data@.skip(i as int),
                self.binary_order == old(self).binary_order,
                self.key_size == old(self).key_size,
                self.value_size == old(self).value_size,
                self.data.max_offsets == old(self).data.max_offsets,
                size == entry_size(self.key_size as int, self.value_size as int),
                es == data@.map_values(|p: (Vec<u8>, Vec<u8>)| entry_bytes(p.0@, p.1@)),
                forall|j: int|
                    0 <= j < data@.len() ==> #[trigger] data@[j].0@.len() == old(self).key_size
                        && data@[j].1@.len() == old(self).value_size,
                self.data.elements().len() == old(self).data.elements().len() + i,
                old(self).data.elements().len() + data@.len() <= u64::MAX,
                forall|x: Seq<u8>| #[trigger] old(self).data.elements().contains(x)
                    ==> self.data.elements().contains(x),
                self.data.elements().to_multiset() == old(self).data.elements().to_multiset().add(
                    es.take(i as int).to_multiset(),
                ),
                forall|j: int|
                    0 <= j < i ==> self.data.elements().contains(
                        entry_bytes(#[trigger] data@[j].0@, data@[j].1@),
                    ),
                !self.binary_order ==> self.data.elements() == old(self).data.elements() + es.take(
                    i as int,
                ),
                self.binary_order && sorted0 ==> entries_sorted(self.current(), self.ks(), self.vs()),
                self.data.current_master_shard.image().len() <= if base_cur >= base_cfg {
                    base_cur
                } else {
                    base_cfg
                } + i * size,
                base_cur + n * size <= usize::MAX,
                base_cfg + n * size <= usize::MAX,
                base_cfg == offset_pos(self.data.max_offsets as int),
            decreases n - i,
        {
            proof {
                assert(i * size + size == (i + 1) * size) by (nonlinear_arith);
                assert((i + 1) * size <= n * size) by (nonlinear_arith)
                    requires
                        i + 1 <= n,
                        size >= 0,
                ;
            }
            let (key, value) = rest.remove(0);
            proof {
                assert(rest@ =~= data@.skip(i + 1));
                assert(key == data@[i as int].0 && value == data@[i as int].1);
                assert(data@[i as int].0@.len() == self.key_size && data@[i as int].1@.len()
                    == self.value_size);
            }
            let ghost before = self.data.elements();
            self.insert(key, value);
            proof {
                let q = choose|q: int|
                    #![trigger before.take(q)]
                    0 <= q <= before.len() && self.data.elements() == before.take(q) + seq![
                        entry_bytes(key@, value@),
                    ] + before.skip(q);
                lemma_insert_keeps(before, self.data.elements(), q, entry_bytes(key@, value@));
                assert(self.data.elements() =~= before.insert(q, entry_bytes(key@, value@)));
                vstd::seq_lib::to_multiset_insert(before, q, entry_bytes(key@, value@));
                assert(es.take(i + 1) =~= es.take(i as int).push(es[i as int]));
                vstd::seq_lib::to_multiset_build(es.take(i as int), es[i as int]);
                assert(es[i as int] == entry_bytes(key@, value@));
                assert(self.data.elements().to_multiset() =~= old(self).data.elements().to_multiset().add(
                    es.take(i + 1).to_multiset(),
                ));
                assert(es.take(i + 1) =~= es.take(i as int).push(es[i as int]));
                if !self.binary_order {
                    assert(self.data.elements() =~= old(self).data.elements() + es.take(i + 1));
                }
            }
            i = i + 1;
        }
        proof {
            assert(es.take(n as int) =~= es);
        }
    }
    /// Appends the entry for `key` and `value` (rolling over when the current
    /// shard is full) and, with `binary_order`, bubbles it up the current shard
    /// until the record before it has a key that is not greater.
    #[verifier::rlimit(100)]
    pub fn insert(&mut self, key: Vec<u8>, value: Vec<u8>)
        requires
            old(self).wf(),
            key@.len() == old(self).key_size,
            value@.len() == old(self).value_size,
            old(self).can_insert(),
        ensures
            Self::inserted(*old(self), *final(self), key@, value@),
            final(self).data.current_master_shard.image().len() <= entry_size(
                old(self).key_size as int,
                old(self).value_size as int,
            ) + if old(self).data.current_master_shard.image().len() >= offset_pos(
                old(self).data.max_offsets as int,
            ) {
                old(self).data.current_master_shard.image().len() as int
            } else {
                offset_pos(old(self).data.max_offsets as int)
            },
    {
        let ghost e = entry_bytes(key@, value@);
        proof {
            lemma_entry_round_trip(key@, value@);
        }
        let unit = self.build_entry(key, value);
        let row = unit.to_bytes();
        let ghost old_cur = self.current();
        let ghost old_past = self.data.past_records();
        let ghost old_elems = self.data.elements();
        let ghost rolled = self.current().len() == self.data.current_master_shard.capacity();
        self.data.insert_row(&row);
        proof {
            assert(self.data.elements() =~= old_elems.take(old_elems.len() as int) + seq![e]
                + old_elems.skip(old_elems.len() as int));
        }
        if self.binary_order {
            let ghost mid = *self;
            self.keep_binary_order();
            proof {
                let s = mid.current().drop_last();
                assert(mid.current() =~= s.push(e));
                let p = choose|p: int|
                    bubbled(s, e, p, self.ks(), self.vs()) && self.current() == s.take(p) + seq![e] + s.skip(
                        p,
                    );
                let pre = concat_all(self.data.past_records());
                assert(self.data.elements() =~= mid.data.elements().take(pre.len() + p) + seq![e]
                    + mid.data.elements().drop_last().skip(pre.len() + p));
                if rolled {
                    assert(s =~= Seq::<Seq<u8>>::empty());
                    assert(self.current() =~= seq![e]);
                    assert(self.data.elements() =~= old_elems.take(old_elems.len() as int)
                        + seq![e] + old_elems.skip(old_elems.len() as int));
                    assert(key_at(seq![e], 0, self.ks(), self.vs()) is Some);
                    assert(entries_sorted(self.current(), self.ks(), self.vs()));
                } else {
                    assert(s =~= old_cur);
                    assert(mid.data.past_records() == old_past);
                    assert(pre == concat_all(old_past));
                    assert(old_elems == pre + old_cur);
                    assert(mid.data.elements().drop_last() =~= old_elems);
                    assert(self.data.elements() =~= old_elems.take(pre.len() + p) + seq![e]
                        + old_elems.skip(pre.len() + p));
                    assert(bubbled(old_cur, e, p, self.ks(), self.vs()) && self.current() == old_cur.take(p)
                        + seq![e] + old_cur.skip(p));
                    let q = pre.len() + p;
                    assert(0 <= q <= old_elems.len() && self.data.elements() == old_elems.take(q)
                        + seq![e] + old_elems.skip(q));
                    if entries_sorted(old_cur, self.ks(), self.vs()) {
                        lemma_bubbled_sorted(s, e, p, self.ks(), self.vs());
                    }
                }
                assert(!rolled ==> old(self).current() == old_cur);
                assert(!rolled ==> bubbled(old(self).current(), e, p, old(self).ks(), old(self).vs()));
                assert(!rolled ==> self.current() == old(self).current().take(p) + seq![e] + old(
                    self,
                ).current().skip(p));
            }
        } else {
            proof {
                if rolled {
                    assert(self.current() =~= seq![e]);
                }
                assert(self.data.elements() =~= old_elems.take(old_elems.len() as int) + seq![e]
                    + old_elems.skip(old_elems.len() as int));
            }
        }
    }

    /// Bubbles the last record of the current shard towards the front while
    /// its key is smaller than the key of the record before it.
    fn keep_binary_order(&mut self)
        requires
            old(self).wf(),
            old(self).current().len() >= 1,
        ensures
            final(self).wf(),
            final(self).binary_order == old(self).binary_order,
            final(self).key_size == old(self).key_size,
            final(self).value_size == old(self).value_size,
            final(self).data.max_offsets == old(self).data.max_offsets,
            final(self).data.past_records() == old(self).data.past_records(),
            final(self).data.current_master_shard.image().len()
                == old(self).data.current_master_shard.image().len(),
            final(self).data.current_master_shard.capacity()
                == old(self).data.current_master_shard.capacity(),
            ({
                let s = old(self).current().drop_last();
                let e = old(self).current().last();
                exists|p: int|
                    bubbled(s, e, p, old(self).ks(), old(self).vs()) && final(self).current() == s.take(p) + seq![e]
                        + s.skip(p)
            }),
            old(self).current().len() == 1 ==> *final(self) == *old(self),
    {
        let ghost s = self.current().drop_last();
        let ghost e = self.current().last();
        let ghost ks = self.ks();
        let ghost vs = self.vs();
        let n = self.data.current_master_shard.len();
        let mut i: usize = (n - 1) as usize;
        proof {
            assert(self.current() =~= s.take(i as int) + seq![e] + s.skip(i as int));
        }
        while i > 0
            invariant
                self.wf(),
                ks == self.ks(),
                vs == self.vs(),
                i <= s.len(),
                s.len() + 1 == old(self).current().len(),
                self.binary_order == old(self).binary_order,
                self.key_size == old(self).key_size,
                self.value_size == old(self).value_size,
                self.data.max_offsets == old(self).data.max_offsets,
                self.data.past_master_shards == old(self).data.past_master_shards,
                self.data.current_master_shard.image().len()
                    == old(self).data.current_master_shard.image().len(),
                self.data.current_master_shard.capacity()
                    == old(self).data.current_master_shard.capacity(),
                self.current() == s.take(i as int) + seq![e] + s.skip(i as int),
                i < s.len() ==> parse_entry(e, ks, vs) is Some,
                forall|j: int|
                    i <= j < s.len() ==> #[trigger] key_at(s, j, ks, vs) is Some && s[j].len() == e.len()
                        && key_lt(entry_key(e, ks, vs), key_at(s, j, ks, vs)->0),
                i == s.len() ==> *self == *old(self),
            ensures
                bubbled(s, e, i as int, ks, vs),
            decreases i,
        {
            let curr = self.get_kv(i, false);
            let prev = self.get_kv(i - 1, false);
            proof {
                assert(self.current()[i as int] == e);
                assert(self.current()[i - 1] == s[i - 1]);
            }
            match (curr, prev) {
                (Some((curr_key, _, curr_el)), Some((prev_key, _, prev_el))) => {
                    if compare_keys(&curr_key, &prev_key) < 0 && curr_el.len() == prev_el.len() {
                        self.data.current_master_shard.swap_elements(i);
                        proof {
                            assert(self.current() =~= s.take(i - 1) + seq![e] + s.skip(i - 1));
                        }
                        i = i - 1;
                    } else {
                        proof {
                            assert(bubbled(s, e, i as int, ks, vs));
                        }
                        break;
                    }
                },
                _ => {
                    proof {
                        assert(bubbled(s, e, i as int, ks, vs));
                    }
                    break;
                },
            }
        }
        proof {
            assert(bubbled(s, e, i as int, ks, vs));
        }
    }

    /// Searches for `target` in the current shard, then in each past shard
    /// from the oldest, and returns the global index, key and value of the
    /// first entry found.
    pub fn binary_search(&self, target: &Vec<u8>) -> (r: Option<(u64, Vec<u8>, Vec<u8>)>)
        requires
            self.wf(),
            self.data.elements().len() <= u64::MAX,
        ensures
            self.search_post(target@, r),
    {
        let past_total = self.past_total();
        let ghost parts = self.data.past_records();
        proof {
            self.data.current_master_shard.lemma_bounds();
        }
        match self.raw_binary_search(&self.data.current_master_shard, target) {
            Some((i, k, v)) => {
                proof {
                    assert(self.data.elements()[past_total + i] == self.current()[i as int]);
                }
                return Some((past_total + i, k, v));
            },
            None => {},
        }
        let mut before: u64 = 0;
        let mut j: usize = 0;
        while j < self.data.past_master_shards.len()
            invariant
                self.wf(),
                parts == self.data.past_records(),
                self.data.elements().len() <= u64::MAX,
                j <= parts.len(),
                before == concat_all(parts.take(j as int)).len(),
                keys_sorted(self.current(), self.ks(), self.vs()) ==> forall|i: int|
                    0 <= i < self.current().len() ==> #[trigger] key_at(self.current(), i, self.ks(), self.vs())
                        != Some(target@),
                forall|j2: int, i: int|
                    0 <= j2 < j && keys_sorted(parts[j2], self.ks(), self.vs()) && 0 <= i < parts[j2].len()
                        ==> #[trigger] key_at(parts[j2], i, self.ks(), self.vs()) != Some(target@),
            decreases parts.len() - j,
        {
            proof {
                lemma_concat_all_take(parts, j as int);
                crate::map_shard::lemma_concat_prefix_len(parts, (j + 1) as int);
                assert(self.data.past_master_shards@[j as int].wf());
                assert(parts[j as int] == self.data.past_master_shards@[j as int].records());
            }
            match self.raw_binary_search(&self.data.past_master_shards[j], target) {
                Some((i, k, v)) => {
                    proof {
                        lemma_concat_all_index(parts, j as int, i as int);
                        lemma_concat_all_take(parts, j as int);
                        let g = before + i;
                        assert forall|j2: int, i2: int|
                            0 <= j2 < parts.len() && concat_all(parts.take(j2 + 1)).len() <= g
                                && keys_sorted(parts[j2], self.ks(), self.vs()) && 0 <= i2 < parts[j2].len()
                                implies #[trigger] key_at(parts[j2], i2, self.ks(), self.vs()) != Some(target@) by {
                            if j2 >= j {
                                crate::map_shard::lemma_concat_prefix_len(parts.take(j2 + 1), j + 1);
                                assert(parts.take(j2 + 1).take(j + 1) =~= parts.take(j + 1));
                            }
                        }
                    }
                    return Some((before + i, k, v));
                },
                None => {},
            }
            before = before + self.data.past_master_shards[j].len();
            j = j + 1;
        }
        None
    }

    /// Number of entries in the past shards.
    fn past_total(&self) -> (r: u64)
        requires
            self.wf(),
            self.data.elements().len() <= u64::MAX,
        ensures
            r == concat_all(self.data.past_records()).len(),
    {
        let ghost parts = self.data.past_records();
        let mut total: u64 = 0;
        let mut j: usize = 0;
        while j < self.data.past_master_shards.len()
            invariant
                self.wf(),
                parts == self.data.past_records(),
                self.data.elements().len() <= u64::MAX,
                j <= parts.len(),
                total == concat_all(parts.take(j as int)).len(),
            decreases parts.len() - j,
        {
            proof {
                lemma_concat_all_take(parts, j as int);
                crate::map_shard::lemma_concat_prefix_len(parts, (j + 1) as int);
            }
            total = total + self.data.past_master_shards[j].len();
            j = j + 1;
        }
        proof {
            assert(parts.take(j as int) =~= parts);
        }
        total
    }

    /// Binary search for `target` over the slots of one shard. On a slot that
    /// does not parse, the rest of the range is scanned one slot at a time.
    pub fn raw_binary_search(&self, shard: &DataShard, target: &Vec<u8>) -> (r: Option<
        (u64, Vec<u8>, Vec<u8>),
    >)
        requires
            shard.wf(),
        ensures
            r matches Some((i, k, v)) ==> i < shard.records().len() && parse_entry(
                shard.records()[i as int],
                self.key_size as int, self.value_size as int,) == Some((k@, v@)) && k@ == target@,
            r is None && keys_sorted(shard.records(), self.key_size as int, self.value_size as int) ==> forall|i: int|
                0 <= i < shard.records().len() ==> #[trigger] key_at(
                    shard.records(),
                    i,
                    self.key_size as int, self.value_size as int,) != Some(target@),
    {
        let ghost recs = shard.records();
        let ghost ks = self.key_size as int;
        let ghost vs = self.value_size as int;
        let mut left: u64 = 0;
        let mut right: u64 = shard.len();
        while left < right
            invariant
                shard.wf(),
                recs == shard.records(),
                ks == self.key_size,
                vs == self.value_size,
                left <= right <= recs.len(),
                keys_sorted(recs, ks, vs) ==> forall|i: int|
                    (0 <= i < left || right <= i < recs.len()) ==> #[trigger] key_at(recs, i, ks, vs)
                        != Some(target@),
            decreases right - left,
        {
            let mid = left + (right - left) / 2;
            let kv = match self.get_entry_from_shard(shard, mid as usize) {
                Ok(entry) => match self.build_entry_from_vec(entry) {
                    Some((key_unit, val_unit, el)) => Some(self.build_kv(key_unit, val_unit, el)),
                    None => None,
                },
                Err(_) => None,
            };
            match kv {
                None => {
                    return self.linear_search(shard, left, right, target);
                },
                Some((key, value, _)) => {
                    let c = compare_keys(&key, target);
                    if c == 0 {
                        return Some((mid, key, value));
                    } else if c < 0 {
                        proof {
                            assert(key_at(recs, mid as int, ks, vs) == Some(key@));
                            assert forall|i: int|
                                0 <= i < mid + 1 && keys_sorted(recs, ks, vs) implies #[trigger] key_at(
                                recs,
                                i,
                                ks, vs,) != Some(target@) by {
                                lemma_key_order(target@, key@, target@);
                                if key_at(recs, i, ks, vs) is Some {
                                    assert(key_le(key_at(recs, i, ks, vs)->0, key@));
                                }
                            }
                        }
                        left = mid + 1;
                    } else {
                        proof {
                            assert(key_at(recs, mid as int, ks, vs) == Some(key@));
                            assert forall|i: int|
                                mid <= i < recs.len() && keys_sorted(recs, ks, vs) implies #[trigger] key_at(
                                recs,
                                i,
                                ks, vs,) != Some(target@) by {
                                lemma_key_order(target@, key@, target@);
                                if key_at(recs, i, ks, vs) is Some {
                                    assert(key_le(key@, key_at(recs, i, ks, vs)->0));
                                }
                            }
                        }
                        right = mid;
                    }
                },
            }
        }
        None
    }

    /// Scans slots `[left, right)` of `shard` for `target`.
    fn linear_search(&self, shard: &DataShard, left: u64, right: u64, target: &Vec<u8>) -> (r: Option<
        (u64, Vec<u8>, Vec<u8>),
    >)
        requires
            shard.wf(),
            left <= right <= shard.records().len(),
        ensures
            r matches Some((i, k, v)) ==> i < shard.records().len() && parse_entry(
                shard.records()[i as int],
                self.key_size as int, self.value_size as int,) == Some((k@, v@)) && k@ == target@,
            r is None ==> forall|i: int|
                left <= i < right ==> #[trigger] key_at(shard.records(), i, self.key_size as int, self.value_size as int)
                    != Some(target@),
    {
        let mut i = left;
        while i < right
            invariant
                shard.wf(),
                left <= i <= right <= shard.records().len(),
                forall|j: int|
                    left <= j < i ==> #[trigger] key_at(shard.records(), j, self.key_size as int, self.value_size as int)
                        != Some(target@),
            decreases right - i,
        {
            match self.get_entry_from_shard(shard, i as usize) {
                Ok(entry) => match self.build_entry_from_vec(entry) {
                    Some((key_unit, val_unit, el)) => {
                        let (key, value, _) = self.build_kv(key_unit, val_unit, el);
                        if compare_keys(&key, target) == 0 {
                            return Some((i, key, value));
                        }
                    },
                    None => {},
                },
                Err(_) => {},
            }
            i = i + 1;
        }
        None
    }
}

/// With keys kept in order, a key inserted into an index that did not hold it
/// is found again by `binary_search`, with the value inserted under it.
pub proof fn lemma_inserted_key_found(
    before: IndexShard,
    after: IndexShard,
    key: Seq<u8>,
    value: Seq<u8>,
    r: Option<(u64, Vec<u8>, Vec<u8>)>,
)
    requires
        before.wf(),
        before.binary_order,
        key.len() == before.key_size,
        value.len() == before.value_size,
        entries_sorted(before.current(), before.ks(), before.value_size as int),
        forall|g: int|
            0 <= g < before.data.elements().len() ==> #[trigger] parse_entry(
                before.data.elements()[g],
                before.ks(), before.vs(),) is None || entry_key(before.data.elements()[g], before.ks(), before.vs()) != key,
        IndexShard::inserted(before, after, key, value),
        after.search_post(key, r),
    ensures
        r matches Some((g, k, v)) && k@ == key && v@ == value,
{
    let e = entry_bytes(key, value);
    let ks = before.ks();
    let vs = before.vs();
    lemma_entry_round_trip(key, value);
    before.data.current_master_shard.lemma_bounds();
    let pos: int = if before.current().len() < before.data.current_master_shard.capacity() {
        let p = choose|p: int|
            #![trigger bubbled(before.current(), e, p, before.ks(), before.vs())]
            bubbled(before.current(), e, p, before.ks(), before.vs()) && after.current() == before.current().take(
                p,
            ) + seq![e] + before.current().skip(p);
        assert(after.current()[p] == e);
        p
    } else {
        assert(after.current()[0] == e);
        0
    };
    assert(key_at(after.current(), pos, ks, vs) == Some(key));
    assert(keys_sorted(after.current(), ks, vs));
    match r {
        None => {
            assert(key_at(after.current(), pos, ks, vs) != Some(key));
        },
        Some((g, k, v)) => {
            let q = choose|q: int|
                #![trigger before.data.elements().take(q)]
                0 <= q <= before.data.elements().len() && after.data.elements()
                    == before.data.elements().take(q) + seq![e] + before.data.elements().skip(q);
            let olds = before.data.elements();
            if (g as int) < q {
                assert(after.data.elements()[g as int] == olds[g as int]);
                assert(parse_entry(olds[g as int], ks, vs) is Some);
            } else if (g as int) > q {
                assert(after.data.elements()[g as int] == olds[g - 1]);
                assert(parse_entry(olds[g - 1], ks, vs) is Some);
            } else {
                assert(after.data.elements()[g as int] == e);
            }
        },
    }
}

/// An index holding `target` in a past shard whose keys are in order finds
/// it, even when the current shard does not hold it.
pub proof fn lemma_search_finds_past_entry(
    idx: IndexShard,
    target: Seq<u8>,
    r: Option<(u64, Vec<u8>, Vec<u8>)>,
    j: int,
    i: int,
)
    requires
        idx.search_post(target, r),
        0 <= j < idx.data.past_records().len(),
        keys_sorted(idx.data.past_records()[j], idx.ks(), idx.vs()),
        0 <= i < idx.data.past_records()[j].len(),
        key_at(idx.data.past_records()[j], i, idx.ks(), idx.vs()) == Some(target),
    ensures
        r matches Some((g, k, v)) && k@ == target && g < idx.data.elements().len(),
{
    if r is None {
        assert(key_at(idx.data.past_records()[j], i, idx.ks(), idx.vs()) != Some(target));
    }
}

/// Inserting `e` at position `q` keeps every element and adds `e`.
pub proof fn lemma_insert_keeps(old: Seq<Seq<u8>>, new: Seq<Seq<u8>>, q: int, e: Seq<u8>)
    requires
        0 <= q <= old.len(),
        new == old.take(q) + seq![e] + old.skip(q),
    ensures
        new.contains(e),
        forall|x: Seq<u8>| #[trigger] old.contains(x) ==> new.contains(x),
{
    assert(new[q] == e);
    assert forall|x: Seq<u8>| #[trigger] old.contains(x) implies new.contains(x) by {
        let k = choose|k: int| 0 <= k < old.len() && old[k] == x;
        if k < q {
            assert(new[k] == x);
        } else {
            assert(new[k + 1] == x);
        }
    }
}

/// Bubbling an entry of the right size into a sorted run of entries keeps it sorted.
proof fn lemma_bubbled_sorted(s: Seq<Seq<u8>>, e: Seq<u8>, p: int, ks: int, vs: int)
    requires
        bubbled(s, e, p, ks, vs),
        entries_sorted(s, ks, vs),
        parse_entry(e, ks, vs) is Some,
        e.len() == entry_size(ks, vs),
    ensures
        entries_sorted(s.take(p) + seq![e] + s.skip(p), ks, vs),
{
    let t = s.take(p) + seq![e] + s.skip(p);
    let ke = entry_key(e, ks, vs);
    assert forall|i: int| 0 <= i < t.len() implies #[trigger] key_at(t, i, ks, vs) is Some
        && t[i].len() == entry_size(ks, vs) by {
        if i < p {
            assert(t[i] == s[i]);
            assert(key_at(s, i, ks, vs) is Some && s[i].len() == entry_size(ks, vs));
        } else if i > p {
            assert(t[i] == s[i - 1]);
            assert(key_at(s, i - 1, ks, vs) is Some && s[i - 1].len() == entry_size(ks, vs));
        }
    }
    assert forall|i: int, j: int|
        0 <= i <= j < t.len() && #[trigger] key_at(t, i, ks, vs) is Some && #[trigger] key_at(t, j, ks, vs) is Some
            implies key_le(key_at(t, i, ks, vs)->0, key_at(t, j, ks, vs)->0) by {
        let ki = key_at(t, i, ks, vs)->0;
        let kj = key_at(t, j, ks, vs)->0;
        if i < p && j < p {
            assert(t[i] == s[i] && t[j] == s[j]);
            assert(key_at(s, i, ks, vs) is Some && key_at(s, j, ks, vs) is Some);
        } else if i > p && j > p {
            assert(t[i] == s[i - 1] && t[j] == s[j - 1]);
            assert(key_at(s, i - 1, ks, vs) is Some && key_at(s, j - 1, ks, vs) is Some);
        } else if i < p && j > p {
            assert(t[i] == s[i] && t[j] == s[j - 1]);
            assert(key_at(s, i, ks, vs) is Some && key_at(s, j - 1, ks, vs) is Some);
        } else if i == p && j == p {
        } else if i == p {
            assert(t[j] == s[j - 1]);
            assert(key_at(s, j - 1, ks, vs) is Some);
            lemma_key_order(ke, kj, kj);
        } else {
            assert(t[i] == s[i]);
            assert(key_at(s, i, ks, vs) is Some && key_at(s, p - 1, ks, vs) is Some);
            let kp = key_at(s, p - 1, ks, vs)->0;
            assert(key_le(ki, kp));
            lemma_key_order(ke, kp, kp);
            lemma_key_order(ki, kp, ke);
        }
    }
}

} // verus!
