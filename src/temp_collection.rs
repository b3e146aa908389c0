use crate::data_shard::{lemma_total_len_concat, row_views, total_len, DataShard};
use crate::errors::ShardErrors;
use crate::header::{offset_pos, DEFAULT_MAX_OFFSETS};
use crate::map_shard::{concat_all, lemma_concat_all_take, lemma_concat_prefix_len, MapShard};
use vstd::prelude::*;

verus! {

/// A row moved into the target map shard, with the global index it received there.
#[derive(Debug)]
pub struct ReconciledRow {
    pub data: Vec<u8>,
    pub index: u64,
}

/// `r` lists `rows` in order, the first at global index `first` and the rest after it.
pub open spec fn reconciled_as(r: Seq<ReconciledRow>, rows: Seq<Seq<u8>>, first: int) -> bool {
    &&& r.len() == rows.len()
    &&& forall|k: int| 0 <= k < r.len() ==> #[trigger] r[k].data@ == rows[k]
    &&& forall|k: int| 0 <= k < r.len() ==> #[trigger] r[k].index == first + k
}

/// The larger of the current shard's size and the size of a fresh shard:
/// a bound on the current shard's size before a batch of rows is appended.
pub open spec fn append_base(m: MapShard) -> int {
    if m.current_master_shard.image().len() >= offset_pos(m.max_offsets as int) {
        m.current_master_shard.image().len() as int
    } else {
        offset_pos(m.max_offsets as int)
    }
}

/// A data shard used as a write buffer in front of a map shard.
#[derive(Debug)]
pub struct TempShard {
    pub data: DataShard,
}

impl TempShard {
    /// The buffer is a well-formed data shard.
    pub open spec fn wf(&self) -> bool {
        self.data.wf()
    }

    /// The buffered rows, in order of arrival.
    pub open spec fn rows(&self) -> Seq<Seq<u8>> {
        self.data.records()
    }

    /// An empty buffer of `max_offsets` rows.
    pub fn new(max_offsets: u64) -> (r: Self)
        requires
            offset_pos(max_offsets as int) <= usize::MAX,
        ensures
            r.wf(),
            r.rows() == Seq::<Seq<u8>>::empty(),
            r.data.capacity() == max_offsets,
            r.data.image().len() == offset_pos(max_offsets as int),
    {
        TempShard { data: DataShard::new(max_offsets) }
    }

    /// Buffers `rows`; all must fit, else `OutOfPositions` and nothing is written.
    /// Returns the buffer slot of the first row.
    pub fn raw_insert_rows(&mut self, rows: &Vec<Vec<u8>>) -> (r: Result<u64, ShardErrors>)
        requires
            old(self).wf(),
            old(self).data.image().len() + total_len(row_views(rows@)) <= usize::MAX,
        ensures
            final(self).wf(),
            final(self).data.capacity() == old(self).data.capacity(),
            r is Ok <==> old(self).rows().len() + rows@.len() <= old(self).data.capacity(),
            r matches Ok(s) ==> s == old(self).rows().len() && final(self).rows() == old(
                self,
            ).rows() + row_views(rows@),
            r is Err ==> *final(self) == *old(self),
            r matches Err(e) ==> e == ShardErrors::OutOfPositions,
    {
        self.data.insert_rows(rows)
    }
}

/// A ring of temp shards that absorb writes and are later reconciled into
/// the target map shard.
#[derive(Debug)]
pub struct TempCollection {
    pub target_shard: MapShard,
    pub temps: Vec<TempShard>,
    /// Selects the temp shard of the next insert, modulo the ring's width.
    pub counter: usize,
}

impl TempCollection {
    /// The target and every temp shard are well formed.
    pub open spec fn wf(&self) -> bool {
        &&& self.target_shard.wf()
        &&& forall|i: int| 0 <= i < self.temps@.len() ==> #[trigger] self.temps@[i].wf()
    }

    /// Position in the ring of the temp shard that takes the next insert.
    pub open spec fn next_slot(&self) -> int {
        self.counter as int % self.temps@.len() as int
    }

    /// The rows buffered in each temp shard.
    pub open spec fn pending(&self) -> Seq<Seq<Seq<u8>>> {
        self.temps@.map_values(|t: TempShard| t.rows())
    }

    /// Everything that `reconcile_all` leaves behind and returns: every buffer
    /// emptied, the buffered rows appended to the target in ring order, and
    /// each reported with the global index it received.
    pub open spec fn reconciled(old: TempCollection, new: TempCollection, r: Seq<ReconciledRow>) -> bool {
        &&& new.wf()
        &&& new.temps@.len() == old.temps@.len()
        &&& forall|k: int| 0 <= k < new.temps@.len() ==> #[trigger] new.pending()[k].len() == 0
        &&& new.target_shard.elements() == old.target_shard.elements() + concat_all(old.pending())
        &&& new.target_shard.max_offsets == old.target_shard.max_offsets
        &&& reconciled_as(r, concat_all(old.pending()), old.target_shard.elements().len() as int)
    }

    /// A ring of `capacity` empty temp shards of `temp_max_offsets` rows each
    /// (default `DEFAULT_MAX_OFFSETS`) in front of `target_shard`.
    pub fn new(target_shard: MapShard, capacity: u64, temp_max_offsets: Option<u64>) -> (r: Self)
        requires
            target_shard.wf(),
            offset_pos(
                match temp_max_offsets {
                    Some(m) => m as int,
                    None => DEFAULT_MAX_OFFSETS as int,
                },
            ) <= usize::MAX,
        ensures
            r.wf(),
            r.target_shard == target_shard,
            r.temps@.len() == capacity,
            forall|k: int| 0 <= k < capacity ==> #[trigger] r.pending()[k].len() == 0,
            forall|k: int|
                0 <= k < capacity ==> (#[trigger] r.temps@[k]).data.capacity() == (match temp_max_offsets {
                    Some(m) => m,
                    None => DEFAULT_MAX_OFFSETS,
                }) && r.temps@[k].data.image().len() == offset_pos(
                    match temp_max_offsets {
                        Some(m) => m as int,
                        None => DEFAULT_MAX_OFFSETS as int,
                    },
                ),
            r.counter == 0,
    {
        let cap = match temp_max_offsets {
            Some(m) => m,
            None => DEFAULT_MAX_OFFSETS,
        };
        let mut temps: Vec<TempShard> = Vec::new();
        let mut i: u64 = 0;
        while i < capacity
            invariant
                i <= capacity,
                offset_pos(cap as int) <= usize::MAX,
                temps@.len() == i,
                forall|k: int| 0 <= k < i ==> #[trigger] temps@[k].wf(),
                forall|k: int| 0 <= k < i ==> #[trigger] temps@[k].rows().len() == 0,
                forall|k: int|
                    0 <= k < i ==> (#[trigger] temps@[k]).data.capacity() == cap
                        && temps@[k].data.image().len() == offset_pos(cap as int),
            decreases capacity - i,
        {
            temps.push(TempShard::new(cap));
            i = i + 1;
        }
        TempCollection { target_shard, temps, counter: 0 }
    }

    /// Index of the temp shard that takes the next insert; advances the counter.
    fn get_next_shard(&mut self) -> (r: usize)
        requires
            old(self).temps@.len() > 0,
        ensures
            r == old(self).next_slot(),
            final(self).counter == if old(self).counter == usize::MAX {
                0
            } else {
                old(self).counter + 1
            },
            final(self).target_shard == old(self).target_shard,
            final(self).temps == old(self).temps,
    {
        let index = self.counter % self.temps.len();
        self.counter = if self.counter == usize::MAX {
            0
        } else {
            self.counter + 1
        };
        index
    }

    /// Buffers `data` in the temp shard picked by the counter and returns the
    /// buffer slot of the first row. Fails with `OutOfPositions` when the ring is
    /// empty or the picked shard cannot take every row; nothing is then buffered.
    pub fn insert(&mut self, data: &Vec<Vec<u8>>) -> (r: Result<u64, ShardErrors>)
        requires
            old(self).wf(),
            forall|k: int|
                0 <= k < old(self).temps@.len() ==> #[trigger] old(self).temps@[k].data.image().len()
                    + total_len(row_views(data@)) <= usize::MAX,
        ensures
            final(self).wf(),
            final(self).target_shard == old(self).target_shard,
            final(self).temps@.len() == old(self).temps@.len(),
            old(self).temps@.len() == 0 ==> r is Err && *final(self) == *old(self),
            old(self).temps@.len() > 0 ==> {
                let i = old(self).next_slot();
                &&& final(self).counter == if old(self).counter == usize::MAX {
                    0
                } else {
                    old(self).counter + 1
                }
                &&& (r is Ok <==> old(self).pending()[i].len() + data@.len()
                    <= old(self).temps@[i].data.capacity())
                &&& (r matches Ok(s) ==> s == old(self).pending()[i].len() && final(self).pending()
                    == old(self).pending().update(i, old(self).pending()[i] + row_views(data@)))
                &&& (r is Err ==> final(self).pending() == old(self).pending())
            },
            r matches Err(e) ==> e == ShardErrors::OutOfPositions,
    {
        if self.temps.len() == 0 {
            return Err(ShardErrors::OutOfPositions);
        }
        let i = self.get_next_shard();
        let mut temp = self.temps.remove(i);
        let res = temp.raw_insert_rows(data);
        self.temps.insert(i, temp);
        proof {
            assert(self.temps@ =~= old(self).temps@.update(i as int, temp));
            assert(self.pending() =~= old(self).pending().update(i as int, temp.rows()));
        }
        res
    }

    /// Moves the rows buffered in temp shard `i` into the target map shard and
    /// empties that buffer. Returns the moved rows with their global indexes.
    /// A temp shard with nothing buffered is left alone.
    pub fn reconcile_temp(&mut self, i: usize) -> (r: Vec<ReconciledRow>)
        requires
            old(self).wf(),
            i < old(self).temps@.len(),
            append_base(old(self).target_shard) + total_len(old(self).pending()[i as int])
                <= usize::MAX,
            old(self).target_shard.elements().len() + old(self).pending()[i as int].len()
                <= u64::MAX,
        ensures
            final(self).wf(),
            final(self).temps@.len() == old(self).temps@.len(),
            final(self).counter == old(self).counter,
            final(self).pending() == old(self).pending().update(i as int, Seq::empty()),
            final(self).target_shard.elements() == old(self).target_shard.elements() + old(
                self,
            ).pending()[i as int],
            final(self).target_shard.max_offsets == old(self).target_shard.max_offsets,
            append_base(final(self).target_shard) <= append_base(old(self).target_shard)
                + total_len(old(self).pending()[i as int]),
            reconciled_as(
                r@,
                old(self).pending()[i as int],
                old(self).target_shard.elements().len() as int,
            ),
            old(self).pending()[i as int].len() == 0 ==> *final(self) == *old(self),
    {
        proof {
            assert(self.temps@[i as int].wf());
        }
        let rows = self.temps[i].data.read_all();
        let mut out: Vec<ReconciledRow> = Vec::new();
        if rows.len() == 0 {
            proof {
                assert(row_views(rows@).len() == 0);
                assert(self.pending()[i as int] =~= Seq::<Seq<u8>>::empty());
                assert(self.pending().update(i as int, Seq::empty()) =~= self.pending());
                assert(self.target_shard.elements() =~= self.target_shard.elements()
                    + self.pending()[i as int]);
            }
            return out;
        }
        proof {
            self.target_shard.current_master_shard.lemma_bounds();
        }
        let first = self.target_shard.insert_rows(&rows);
        let mut temp = self.temps.remove(i);
        temp.data.reset();
        self.temps.insert(i, temp);
        proof {
            assert(self.temps@ =~= old(self).temps@.update(i as int, temp));
            assert(self.pending() =~= old(self).pending().update(i as int, Seq::empty()));
        }
        let mut k: usize = 0;
        while k < rows.len()
            invariant
                k <= rows@.len(),
                row_views(rows@) == old(self).pending()[i as int],
                first == old(self).target_shard.elements().len(),
                old(self).target_shard.elements().len() + rows@.len() <= u64::MAX,
                out@.len() == k,
                forall|j: int| 0 <= j < k ==> #[trigger] out@[j].data@ == rows@[j]@,
                forall|j: int| 0 <= j < k ==> #[trigger] out@[j].index == first + j,
            decreases rows@.len() - k,
        {
            out.push(ReconciledRow { data: rows[k].clone(), index: first + k as u64 });
            k = k + 1;
        }
        out
    }

    /// Reconciles every temp shard in ring order. When nothing is buffered
    /// this changes nothing and returns nothing.
    pub fn reconcile_all(&mut self) -> (r: Vec<ReconciledRow>)
        requires
            old(self).wf(),
            append_base(old(self).target_shard) + total_len(concat_all(old(self).pending()))
                <= usize::MAX,
            old(self).target_shard.elements().len() + concat_all(old(self).pending()).len()
                <= u64::MAX,
        ensures
            Self::reconciled(*old(self), *final(self), r@),
            final(self).counter == old(self).counter,
            (forall|k: int| 0 <= k < old(self).temps@.len() ==> #[trigger] old(self).pending()[k].len()
                == 0) ==> *final(self) == *old(self),
    {
        let ghost parts = self.pending();
        let ghost first = self.target_shard.elements().len();
        let ghost all_empty = forall|k: int|
            0 <= k < old(self).temps@.len() ==> #[trigger] old(self).pending()[k].len() == 0;
        let mut out: Vec<ReconciledRow> = Vec::new();
        let mut i: usize = 0;
        while i < self.temps.len()
            invariant
                self.wf(),
                parts == old(self).pending(),
                first == old(self).target_shard.elements().len(),
                self.temps@.len() == parts.len(),
                self.counter == old(self).counter,
                i <= parts.len(),
                forall|k: int| 0 <= k < i ==> #[trigger] self.pending()[k].len() == 0,
                forall|k: int| i <= k < parts.len() ==> #[trigger] self.pending()[k] == parts[k],
                self.target_shard.elements() == old(self).target_shard.elements() + concat_all(
                    parts.take(i as int),
                ),
                self.target_shard.max_offsets == old(self).target_shard.max_offsets,
                append_base(self.target_shard) <= append_base(old(self).target_shard) + total_len(
                    concat_all(parts.take(i as int)),
                ),
                append_base(old(self).target_shard) + total_len(concat_all(parts)) <= usize::MAX,
                first + concat_all(parts).len() <= u64::MAX,
                reconciled_as(out@, concat_all(parts.take(i as int)), first as int),
                all_empty ==> *self == *old(self),
                all_empty == forall|k: int|
                    0 <= k < parts.len() ==> #[trigger] parts[k].len() == 0,
            decreases parts.len() - i,
        {
            proof {
                lemma_concat_all_take(parts, i as int);
                lemma_total_len_concat(concat_all(parts.take(i as int)), parts[i as int]);
                lemma_concat_total_prefix(parts, (i + 1) as int);
                lemma_concat_prefix_len(parts, (i + 1) as int);
            }
            let ghost before = out@;
            let mut batch = self.reconcile_temp(i);
            let ghost base = out@.len();
            let ghost batch_v = batch@;
            out.append(&mut batch);
            proof {
                assert(out@ == before + batch_v);
                let done = concat_all(parts.take(i as int));
                assert(concat_all(parts.take(i + 1)) == done + parts[i as int]);
                assert forall|j: int| 0 <= j < out@.len() implies #[trigger] out@[j].data@ == (done
                    + parts[i as int])[j] && out@[j].index == first + j by {
                    if j >= base {
                        assert(out@[j] == batch_v[j - base]);
                    }
                }
                assert(self.target_shard.elements() =~= old(self).target_shard.elements() + (done
                    + parts[i as int]));
                assert forall|k2: int| 0 <= k2 < i + 1 implies #[trigger] self.pending()[k2].len() == 0 by {
                    if k2 == i {
                    }
                }
            }
            i = i + 1;
        }
        proof {
            assert(parts.take(i as int) =~= parts);
        }
        out
    }
}

/// After `reconcile_all` every temp shard is empty and the target holds
/// exactly as many more rows as were buffered.
pub proof fn lemma_reconcile_moves_every_row(
    before: TempCollection,
    after: TempCollection,
    r: Seq<ReconciledRow>,
)
    requires
        TempCollection::reconciled(before, after, r),
    ensures
        forall|k: int| 0 <= k < after.temps@.len() ==> #[trigger] after.temps@[k].rows().len() == 0,
        after.target_shard.elements().len() == before.target_shard.elements().len()
            + concat_all(before.pending()).len(),
        r.len() == concat_all(before.pending()).len(),
{
    assert forall|k: int| 0 <= k < after.temps@.len() implies #[trigger] after.temps@[k].rows().len()
        == 0 by {
        assert(after.pending()[k].len() == 0);
    }
}

/// Reconciling a ring with nothing buffered moves nothing and reports nothing.
pub proof fn lemma_reconcile_empty_ring(
    before: TempCollection,
    after: TempCollection,
    r: Seq<ReconciledRow>,
)
    requires
        TempCollection::reconciled(before, after, r),
        forall|k: int| 0 <= k < before.temps@.len() ==> #[trigger] before.pending()[k].len() == 0,
    ensures
        after.target_shard.elements() == before.target_shard.elements(),
        after.pending() == before.pending(),
        r.len() == 0,
{
    lemma_concat_all_empty(before.pending());
    assert(after.target_shard.elements() =~= before.target_shard.elements());
    assert forall|k: int| 0 <= k < after.pending().len() implies #[trigger] after.pending()[k]
        == before.pending()[k] by {
        assert(after.pending()[k] =~= before.pending()[k]);
    }
    assert(after.pending() =~= before.pending());
}

/// Concatenating empty parts gives nothing.
proof fn lemma_concat_all_empty(parts: Seq<Seq<Seq<u8>>>)
    requires
        forall|k: int| 0 <= k < parts.len() ==> #[trigger] parts[k].len() == 0,
    ensures
        concat_all(parts) == Seq::<Seq<u8>>::empty(),
    decreases parts.len(),
{
    if parts.len() > 0 {
        lemma_concat_all_empty(parts.drop_last());
        assert(parts.last().len() == 0);
        assert(concat_all(parts) =~= Seq::<Seq<u8>>::empty());
    }
}

/// The bytes of a concatenated prefix never exceed those of the whole.
proof fn lemma_concat_total_prefix(parts: Seq<Seq<Seq<u8>>>, i: int)
    requires
        0 <= i <= parts.len(),
    ensures
        total_len(concat_all(parts.take(i))) <= total_len(concat_all(parts)),
    decreases parts.len() - i,
{
    if i < parts.len() {
        lemma_concat_all_take(parts, i);
        lemma_total_len_concat(concat_all(parts.take(i)), parts[i]);
        lemma_concat_total_prefix(parts, i + 1);
    } else {
        assert(parts.take(i) =~= parts);
    }
}

} // verus!
