use crate::bytes::{lemma_u64_at_same, u64_at};
use crate::errors::ShardErrors;
use crate::header::{
    fresh_image, image_ok, lemma_fresh_image, lemma_record_bounds,
    offset_pos, record_end, records_of, stored_id, stored_max, stored_offset, stored_used,
    DataShardHeader, DEFAULT_MAX_OFFSETS, EMPTY_SLOT_MARK,
};
use vstd::prelude::*;

verus! {

/// The byte sequences held by `rows`.
pub open spec fn row_views(rows: Seq<Vec<u8>>) -> Seq<Seq<u8>> {
    rows.map_values(|r: Vec<u8>| r@)
}

/// Sum of the lengths of `rows`.
pub open spec fn total_len(rows: Seq<Seq<u8>>) -> nat
    decreases rows.len(),
{
    if rows.len() == 0 {
        0
    } else {
        total_len(rows.drop_last()) + rows.last().len()
    }
}

/// `total_len` grows by the length of a pushed row.
pub proof fn lemma_total_len_push(rows: Seq<Seq<u8>>, r: Seq<u8>)
    ensures
        total_len(rows.push(r)) == total_len(rows) + r.len(),
{
    assert(rows.push(r).drop_last() =~= rows);
}

/// `total_len` adds up over a concatenation.
pub proof fn lemma_total_len_concat(a: Seq<Seq<u8>>, b: Seq<Seq<u8>>)
    ensures
        total_len(a + b) == total_len(a) + total_len(b),
    decreases b.len(),
{
    if b.len() == 0 {
        assert(a + b =~= a);
    } else {
        lemma_total_len_concat(a, b.drop_last());
        assert((a + b).drop_last() =~= a + b.drop_last());
    }
}

/// The prefix sums of `total_len` grow with the prefix.
pub proof fn lemma_total_len_prefix(rows: Seq<Seq<u8>>, i: int)
    requires
        0 <= i <= rows.len(),
    ensures
        total_len(rows.take(i)) <= total_len(rows),
        i < rows.len() ==> total_len(rows.take(i + 1)) == total_len(rows.take(i)) + rows[i].len(),
    decreases rows.len() - i,
{
    if i < rows.len() {
        assert(rows.take(i + 1).drop_last() =~= rows.take(i));
        lemma_total_len_prefix(rows, i + 1);
    } else {
        assert(rows.take(i) =~= rows);
    }
}

/// Appending `row` to a well-formed image and recording its offset in the next
/// free slot yields a well-formed image with one more record.
proof fn lemma_append_record(f0: Seq<u8>, f2: Seq<u8>, row: Seq<u8>)
    requires
        image_ok(f0),
        stored_used(f0) < stored_max(f0),
        f2.len() == f0.len() + row.len(),
        f2.len() <= usize::MAX,
        forall|j: int|
            0 <= j < f0.len() && !(8 <= j < 16) && !(offset_pos(stored_used(f0)) <= j
                < offset_pos(stored_used(f0)) + 8) ==> #[trigger] f2[j] == f0[j],
        forall|j: int| 0 <= j < row.len() ==> f2[f0.len() + j] == row[j],
        u64_at(f2, 8) == stored_used(f0),
        stored_offset(f2, stored_used(f0)) == f0.len(),
    ensures
        image_ok(f2),
        stored_max(f2) == stored_max(f0),
        stored_used(f2) == stored_used(f0) + 1,
        stored_id(f2) == stored_id(f0),
        records_of(f2) == records_of(f0).push(row),
{
    let u = stored_used(f0);
    let max = stored_max(f0);
    let hl = offset_pos(max);
    lemma_u64_at_same(f0, f2, 0);
    assert(stored_id(f2) =~= stored_id(f0));
    assert(u64_at(f2, 8) != EMPTY_SLOT_MARK);
    assert forall|k: int| 0 <= k < max && k != u implies #[trigger] stored_offset(f2, k)
        == stored_offset(f0, k) by {
        lemma_u64_at_same(f0, f2, offset_pos(k));
    }
    assert forall|k: int, l: int| 0 <= k <= l < stored_used(f2) implies #[trigger] stored_offset(
        f2,
        k,
    ) <= #[trigger] stored_offset(f2, l) by {
        if l == u && k < u {
            lemma_record_bounds(f0, k);
        }
    }
    assert forall|k: int| 0 <= k < u + 1 implies #[trigger] records_of(f2)[k] == records_of(
        f0,
    ).push(row)[k] by {
        if k < u {
            lemma_record_bounds(f0, k);
            assert(record_end(f2, k) == record_end(f0, k));
            assert(f2.subrange(stored_offset(f2, k), record_end(f2, k)) =~= f0.subrange(
                stored_offset(f0, k),
                record_end(f0, k),
            ));
        } else {
            assert(f2.subrange(stored_offset(f2, k), record_end(f2, k)) =~= row);
        }
    }
    assert(records_of(f2) =~= records_of(f0).push(row));
}

/// An append-only, slot-addressed record file, held as its bytes.
#[derive(Debug)]
pub struct DataShard {
    header: DataShardHeader,
    file: Vec<u8>,
}

impl DataShard {
    /// The bytes of the backing file.
    pub closed spec fn image(&self) -> Seq<u8> {
        self.file@
    }

    /// The header agrees with the image, which is well formed.
    pub open spec fn wf(&self) -> bool {
        &&& image_ok(self.image())
        &&& self.header_ok()
    }

    /// The in-memory header is the copy of the image's header.
    pub closed spec fn header_ok(&self) -> bool {
        self.header.describes(self.file@)
    }

    /// The records, by slot.
    pub open spec fn records(&self) -> Seq<Seq<u8>> {
        records_of(self.image())
    }

    /// Capacity in slots.
    pub open spec fn capacity(&self) -> nat {
        stored_max(self.image()) as nat
    }

    /// Identifier bytes.
    pub open spec fn shard_id(&self) -> Seq<u8> {
        stored_id(self.image())
    }

    /// Bounds that a well-formed shard keeps.
    pub proof fn lemma_bounds(&self)
        requires
            self.wf(),
        ensures
            self.records().len() <= self.capacity(),
            self.capacity() <= u64::MAX,
            self.shard_id().len() == 16,
            offset_pos(self.capacity() as int) <= self.image().len() <= usize::MAX,
            total_len(self.records()) <= self.image().len(),
    {
        reveal(DataShard::header_ok);
        self.header.lemma_view_bounds();
        lemma_records_total_len(self.image(), self.records().len() as int);
        assert(self.records().take(self.records().len() as int) =~= self.records());
    }

    /// A shard over the bytes of `file`: an empty file receives a fresh header
    /// of capacity `max_offsets` (default `DEFAULT_MAX_OFFSETS`) and identifier
    /// `uuid` (default a fresh one); any other file must be a well-formed image.
    pub fn from_file(file: Vec<u8>, max_offsets: Option<u64>, uuid: Option<Vec<u8>>) -> (r: Result<
        Self,
        ShardErrors,
    >)
        requires
            file@.len() == 0 ==> offset_pos(
                match max_offsets {
                    Some(m) => m as int,
                    None => DEFAULT_MAX_OFFSETS as int,
                },
            ) <= usize::MAX,
            uuid matches Some(u) ==> u@.len() == 16,
        ensures
            file@.len() == 0 ==> {
                &&& r is Ok
                &&& r->Ok_0.wf()
                &&& r->Ok_0.records() == Seq::<Seq<u8>>::empty()
                &&& r->Ok_0.capacity() == match max_offsets {
                    Some(m) => m,
                    None => DEFAULT_MAX_OFFSETS,
                }
                &&& r->Ok_0.image() == fresh_image(r->Ok_0.capacity() as u64, r->Ok_0.shard_id())
                &&& r->Ok_0.image().len() == offset_pos(r->Ok_0.capacity() as int)
                &&& (uuid matches Some(u) ==> r->Ok_0.shard_id() == u@)
            },
            file@.len() != 0 ==> {
                &&& (r is Ok <==> image_ok(file@))
                &&& (r matches Ok(s) ==> s.wf() && s.image() == file@)
                &&& (r matches Err(e) ==> e == ShardErrors::InvalidHeader)
            },
    {
        let mut file = file;
        let ghost was_empty = file@.len() == 0;
        match DataShardHeader::new_from_file(&mut file, max_offsets, uuid) {
            Ok(header) => {
                proof {
                    if was_empty {
                        header.lemma_view_bounds();
                        lemma_fresh_image(header@.max_offsets as u64, header@.id);
                    }
                }
                Ok(DataShard { header, file })
            },
            Err(e) => Err(e),
        }
    }

    /// A new empty shard of capacity `max_offsets` and a fresh identifier.
    pub fn new(max_offsets: u64) -> (r: Self)
        requires
            offset_pos(max_offsets as int) <= usize::MAX,
        ensures
            r.wf(),
            r.records() == Seq::<Seq<u8>>::empty(),
            r.capacity() == max_offsets,
            r.image() == fresh_image(max_offsets, r.shard_id()),
            r.image().len() == offset_pos(max_offsets as int),
    {
        let mut file: Vec<u8> = Vec::new();
        let header = DataShardHeader::new(max_offsets, None);
        header.initialize_empty_file(&mut file);
        proof {
            header.lemma_view_bounds();
            lemma_fresh_image(header@.max_offsets as u64, header@.id);
        }
        DataShard { header, file }
    }

    /// The bytes of the backing file.
    pub fn file(&self) -> (r: &Vec<u8>)
        ensures
            r@ == self.image(),
    {
        &self.file
    }

    /// The identifier bytes.
    pub fn id(&self) -> (r: &Vec<u8>)
        requires
            self.wf(),
        ensures
            r@ == self.shard_id(),
    {
        proof {
            reveal(DataShard::header_ok);
        }
        self.header.id()
    }

    /// The in-memory header.
    pub fn header(&self) -> (r: &DataShardHeader)
        requires
            self.wf(),
        ensures
            r.describes(self.image()),
    {
        proof {
            reveal(DataShard::header_ok);
        }
        &self.header
    }

    /// Capacity in slots.
    pub fn get_max_offsets(&self) -> (r: u64)
        requires
            self.wf(),
        ensures
            r == self.capacity(),
    {
        proof {
            reveal(DataShard::header_ok);
        }
        self.header.get_max_offsets()
    }

    /// Highest used slot, `-1` when the shard is empty.
    pub fn get_last_index(&self) -> (r: i64)
        requires
            self.wf(),
        ensures
            r == self.records().len() - 1,
    {
        proof {
            reveal(DataShard::header_ok);
        }
        self.header.get_last_offset_index()
    }

    /// Number of used slots.
    pub fn len(&self) -> (r: u64)
        requires
            self.wf(),
        ensures
            r == self.records().len(),
    {
        proof {
            reveal(DataShard::header_ok);
            self.header.lemma_view_bounds();
        }
        (self.header.get_last_offset_index() + 1) as u64
    }

    /// Number of free slots.
    pub fn available_space(&self) -> (r: usize)
        requires
            self.wf(),
        ensures
            r == self.capacity() - self.records().len(),
    {
        proof {
            reveal(DataShard::header_ok);
        }
        self.header.available_space()
    }

    /// Whether a free slot is left.
    pub fn has_space(&self) -> (r: bool)
        requires
            self.wf(),
        ensures
            r == (self.records().len() < self.capacity()),
    {
        proof {
            reveal(DataShard::header_ok);
        }
        self.header.has_space()
    }

    /// `Some(last slot)` exactly when every slot is used (`Some(0)` for a shard of capacity zero).
    pub fn breaking_point(&self) -> (r: Option<u64>)
        requires
            self.wf(),
        ensures
            r is Some <==> self.records().len() == self.capacity(),
            r matches Some(p) ==> p == if self.capacity() == 0 {
                0
            } else {
                self.capacity() - 1
            },
    {
        proof {
            reveal(DataShard::header_ok);
            self.header.lemma_view_bounds();
        }
        if self.header.has_space() {
            None
        } else {
            let max = self.header.get_max_offsets();
            if max == 0 {
                Some(0)
            } else {
                Some(max - 1)
            }
        }
    }

    /// Appends `row` as a new record in the next free slot and returns that
    /// slot. Fails with `OutOfPositions`, changing nothing, when the shard is full.
    pub fn insert_row(&mut self, row: &Vec<u8>) -> (r: Result<u64, ShardErrors>)
        requires
            old(self).wf(),
            old(self).image().len() + row@.len() <= usize::MAX,
        ensures
            final(self).wf(),
            final(self).capacity() == old(self).capacity(),
            final(self).shard_id() == old(self).shard_id(),
            r is Ok <==> old(self).records().len() < old(self).capacity(),
            r matches Ok(s) ==> s == old(self).records().len() && final(self).records() == old(
                self,
            ).records().push(row@) && final(self).image().len() == old(self).image().len()
                + row@.len(),
            r matches Err(e) ==> e == ShardErrors::OutOfPositions && *final(self) == *old(self),
    {
        proof {
            reveal(DataShard::header_ok);
            self.header.lemma_view_bounds();
        }
        if !self.header.has_space() {
            return Err(ShardErrors::OutOfPositions);
        }
        let ghost f0 = self.file@;
        let slot = self.header.get_last_offset_index() + 1;
        let start = self.file.len();
        let mut k: usize = 0;
        while k < row.len()
            invariant
                self.header.describes(f0),
                self.header@.used < self.header@.max_offsets,
                slot == self.header@.used,
                k <= row@.len(),
                start == f0.len(),
                f0.len() + row@.len() <= usize::MAX,
                self.file@ =~= f0 + row@.subrange(0, k as int),
            decreases row@.len() - k,
        {
            self.file.push(row[k]);
            k = k + 1;
        }
        let res = self.header.add_next_offset(start as u64, &mut self.file);
        match res {
            Ok(()) => {
                proof {
                    lemma_append_record(f0, self.file@, row@);
                }
                Ok(slot as u64)
            },
            Err(e) => {
                proof {
                    assert(false);
                }
                Err(e)
            },
        }
    }

    /// Appends every row of `rows`, in order, and returns the slot of the first.
    /// All rows must fit: otherwise the call fails with `OutOfPositions` and
    /// writes nothing.
    pub fn insert_rows(&mut self, rows: &Vec<Vec<u8>>) -> (r: Result<u64, ShardErrors>)
        requires
            old(self).wf(),
            old(self).image().len() + total_len(row_views(rows@)) <= usize::MAX,
        ensures
            final(self).wf(),
            final(self).capacity() == old(self).capacity(),
            final(self).shard_id() == old(self).shard_id(),
            r is Ok <==> old(self).records().len() + rows@.len() <= old(self).capacity(),
            r matches Ok(s) ==> s == old(self).records().len() && final(self).records() == old(
                self,
            ).records() + row_views(rows@) && final(self).image().len() == old(self).image().len()
                + total_len(row_views(rows@)),
            r matches Err(e) ==> e == ShardErrors::OutOfPositions && *final(self) == *old(self),
    {
        proof {
            reveal(DataShard::header_ok);
            self.header.lemma_view_bounds();
        }
        if rows.len() > self.header.available_space() {
            return Err(ShardErrors::OutOfPositions);
        }
        let first = self.len();
        let ghost s0 = self.records();
        let ghost l0 = self.image().len();
        let ghost all = row_views(rows@);
        let mut i: usize = 0;
        while i < rows.len()
            invariant
                self.wf(),
                i <= rows@.len(),
                all == row_views(rows@),
                all.len() == rows@.len(),
                self.capacity() == old(self).capacity(),
                self.shard_id() == old(self).shard_id(),
                s0 == old(self).records(),
                l0 == old(self).image().len(),
                first == s0.len(),
                s0.len() + rows@.len() <= self.capacity(),
                self.records() == s0 + all.take(i as int),
                self.image().len() == l0 + total_len(all.take(i as int)),
                l0 + total_len(all) <= usize::MAX,
            decreases rows@.len() - i,
        {
            proof {
                lemma_total_len_prefix(all, i as int);
                lemma_total_len_prefix(all, (i + 1) as int);
            }
            let res = self.insert_row(&rows[i]);
            proof {
                assert(all.take(i + 1) =~= all.take(i as int).push(all[i as int]));
            }
            i = i + 1;
        }
        proof {
            assert(all.take(i as int) =~= all);
        }
        Ok(first)
    }

    /// The record in `slot`; `UnknownEntry` when the slot is not used.
    pub fn read_item_from_index(&self, slot: usize) -> (r: Result<Vec<u8>, ShardErrors>)
        requires
            self.wf(),
        ensures
            r is Ok <==> slot < self.records().len(),
            r matches Ok(b) ==> b@ == self.records()[slot as int],
            r matches Err(e) ==> e == ShardErrors::UnknownEntry,
    {
        proof {
            reveal(DataShard::header_ok);
            self.header.lemma_view_bounds();
        }
        let used = self.len();
        if slot as u64 >= used {
            return Err(ShardErrors::UnknownEntry);
        }
        proof {
            lemma_record_bounds(self.file@, slot as int);
        }
        let start = match self.offset_for_slot(slot) {
            Some(o) => o as usize,
            None => {
                return Err(ShardErrors::UnknownEntry);
            },
        };
        let end = if (slot as u64) + 1 < used {
            match self.offset_for_slot(slot + 1) {
                Some(o) => o as usize,
                None => {
                    return Err(ShardErrors::UnknownEntry);
                },
            }
        } else {
            self.file.len()
        };
        let mut out: Vec<u8> = Vec::new();
        let mut k: usize = start;
        while k < end
            invariant
                start <= k <= end,
                end <= self.file@.len(),
                out@ =~= self.file@.subrange(start as int, k as int),
            decreases end - k,
        {
            out.push(self.file[k]);
            k = k + 1;
        }
        Ok(out)
    }

    /// Every record, by slot.
    pub fn read_all(&self) -> (r: Vec<Vec<u8>>)
        requires
            self.wf(),
        ensures
            row_views(r@) == self.records(),
    {
        proof {
            self.lemma_bounds();
        }
        let n = self.len();
        let mut out: Vec<Vec<u8>> = Vec::new();
        let mut i: u64 = 0;
        while i < n
            invariant
                self.wf(),
                n == self.records().len(),
                i <= n,
                out@.len() == i,
                forall|k: int| 0 <= k < i ==> #[trigger] out@[k]@ == self.records()[k],
            decreases n - i,
        {
            match self.read_item_from_index(i as usize) {
                Ok(b) => {
                    out.push(b);
                },
                Err(_) => {
                    proof {
                        assert(false);
                    }
                },
            }
            i = i + 1;
        }
        proof {
            assert(row_views(out@) =~= self.records());
        }
        out
    }

    /// The offset recorded for a used slot.
    fn offset_for_slot(&self, slot: usize) -> (r: Option<u64>)
        requires
            self.wf(),
            slot < self.records().len(),
        ensures
            r == Some(stored_offset(self.image(), slot as int) as u64),
    {
        proof {
            reveal(DataShard::header_ok);
            self.header.lemma_view_bounds();
            lemma_record_bounds(self.file@, slot as int);
        }
        let pos = DataShardHeader::calculate_offset_pos(slot);
        self.header.get_offset_value_from_offset_header(&self.file, pos)
    }

    /// Swaps the records in slots `index - 1` and `index`, which have the same size.
    pub fn swap_elements(&mut self, index: usize)
        requires
            old(self).wf(),
            0 < index < old(self).records().len(),
            old(self).records()[index - 1].len() == old(self).records()[index as int].len(),
        ensures
            final(self).wf(),
            final(self).capacity() == old(self).capacity(),
            final(self).shard_id() == old(self).shard_id(),
            final(self).image().len() == old(self).image().len(),
            final(self).records() == old(self).records().update(
                index - 1,
                old(self).records()[index as int],
            ).update(index as int, old(self).records()[index - 1]),
    {
        proof {
            reveal(DataShard::header_ok);
            self.header.lemma_view_bounds();
            lemma_record_bounds(self.file@, index - 1);
            lemma_record_bounds(self.file@, index as int);
        }
        let ghost f0 = self.file@;
        let ghost recs = records_of(f0);
        let a = match self.offset_for_slot(index - 1) {
            Some(o) => o as usize,
            None => {
                return ;
            },
        };
        let b = match self.offset_for_slot(index) {
            Some(o) => o as usize,
            None => {
                return ;
            },
        };
        let n = b - a;
        let mut k: usize = 0;
        while k < n
            invariant
                k <= n,
                a + n == b,
                b + n <= f0.len(),
                f0.len() <= usize::MAX,
                self.header.describes(f0),
                offset_pos(stored_max(f0)) <= a,
                self.file@.len() == f0.len(),
                forall|j: int| a <= j < a + k ==> #[trigger] self.file@[j] == f0[j + n],
                forall|j: int| b <= j < b + k ==> #[trigger] self.file@[j] == f0[j - n],
                forall|j: int|
                    0 <= j < f0.len() && !(a <= j < a + k) && !(b <= j < b + k) ==> #[trigger] self.file@[j]
                        == f0[j],
            decreases n - k,
        {
            let x = self.file[a + k];
            let y = self.file[b + k];
            self.file.set(a + k, y);
            self.file.set(b + k, x);
            k = k + 1;
        }
        proof {
            reveal(DataShard::header_ok);
            let f1 = self.file@;
            lemma_u64_at_same(f0, f1, 0);
            lemma_u64_at_same(f0, f1, 8);
            assert(stored_id(f1) =~= stored_id(f0));
            assert forall|k: int| 0 <= k < stored_max(f0) implies #[trigger] stored_offset(f1, k)
                == stored_offset(f0, k) by {
                lemma_u64_at_same(f0, f1, offset_pos(k));
            }
            assert forall|k: int| 0 <= k < recs.len() implies #[trigger] records_of(f1)[k]
                == recs.update(index - 1, recs[index as int]).update(
                index as int,
                recs[index - 1],
            )[k] by {
                lemma_record_bounds(f0, k);
                if k < index - 1 {
                    assert(stored_offset(f0, k + 1) <= stored_offset(f0, index - 1));
                    assert(f1.subrange(stored_offset(f1, k), record_end(f1, k)) =~= f0.subrange(
                        stored_offset(f0, k),
                        record_end(f0, k),
                    ));
                } else if k > index {
                    assert(stored_offset(f0, index + 1) <= stored_offset(f0, k));
                    assert(f1.subrange(stored_offset(f1, k), record_end(f1, k)) =~= f0.subrange(
                        stored_offset(f0, k),
                        record_end(f0, k),
                    ));
                } else if k == index - 1 {
                    assert(f1.subrange(stored_offset(f1, k), record_end(f1, k)) =~= recs[index as int]);
                } else {
                    assert(f1.subrange(stored_offset(f1, k), record_end(f1, k)) =~= recs[index - 1]);
                }
            }
            assert(image_ok(f1));
            assert(records_of(f1) =~= recs.update(index - 1, recs[index as int]).update(
                index as int,
                recs[index - 1],
            ));
        }
    }

    /// Empties the shard: the image becomes a fresh header with the same
    /// capacity and identifier.
    pub fn reset(&mut self)
        requires
            old(self).wf(),
        ensures
            final(self).wf(),
            final(self).records() == Seq::<Seq<u8>>::empty(),
            final(self).capacity() == old(self).capacity(),
            final(self).shard_id() == old(self).shard_id(),
            final(self).image() == fresh_image(old(self).capacity() as u64, old(self).shard_id()),
    {
        proof {
            reveal(DataShard::header_ok);
            self.header.lemma_view_bounds();
        }
        let max = self.header.get_max_offsets();
        let id = self.header.id().clone();
        let mut file: Vec<u8> = Vec::new();
        match DataShardHeader::new_from_file(&mut file, Some(max), Some(id)) {
            Ok(header) => {
                proof {
                    header.lemma_view_bounds();
                    lemma_fresh_image(header@.max_offsets as u64, header@.id);
                }
                self.header = header;
                self.file = file;
            },
            Err(_) => {
                proof {
                    assert(false);
                }
            },
        }
    }
}

/// The used slots of a shard never exceed its capacity: `-1 <= last_offset_index < max_offsets`.
pub proof fn lemma_used_slots_within_capacity(s: &DataShard)
    requires
        s.wf(),
    ensures
        0 <= s.records().len() <= s.capacity(),
{
    s.lemma_bounds();
}

/// The slot table of a shard: each used slot holds a non-zero offset inside
/// the file, before its end when the record there is not empty; each unused
/// slot holds zero.
pub proof fn lemma_slot_table(s: &DataShard, i: int)
    requires
        s.wf(),
        0 <= i < s.capacity(),
    ensures
        i < s.records().len() ==> {
            &&& 0 < offset_pos(s.capacity() as int) <= stored_offset(s.image(), i)
            &&& stored_offset(s.image(), i) <= s.image().len()
            &&& (s.records()[i].len() > 0 ==> stored_offset(s.image(), i) < s.image().len())
        },
        i >= s.records().len() ==> stored_offset(s.image(), i) == 0,
{
    if i < s.records().len() {
        lemma_record_bounds(s.image(), i);
    }
}

/// Reading back the slot that an append returned gives the appended bytes.
pub proof fn lemma_read_back_appended(before: &DataShard, after: &DataShard, b: Seq<u8>, slot: u64)
    requires
        slot == before.records().len(),
        after.records() == before.records().push(b),
    ensures
        slot < after.records().len(),
        after.records()[slot as int] == b,
{
}

/// The first record of a fresh shard goes to slot 0, which then holds the
/// header size as its offset.
pub proof fn lemma_first_insert(before: &DataShard, after: &DataShard, b: Seq<u8>)
    requires
        before.wf(),
        after.wf(),
        before.image() == fresh_image(before.capacity() as u64, before.shard_id()),
        after.capacity() == before.capacity(),
        after.records() == before.records().push(b),
        after.image().len() == before.image().len() + b.len(),
    ensures
        after.records().len() == 1,
        stored_offset(after.image(), 0) == offset_pos(after.capacity() as int),
{
    before.lemma_bounds();
    after.lemma_bounds();
    lemma_fresh_image(before.capacity() as u64, before.shard_id());
    assert(before.records().len() == 0);
    assert(after.records().len() == 1);
    assert(stored_used(after.image()) == 1);
    lemma_record_bounds(after.image(), 0);
    assert(record_end(after.image(), 0) == after.image().len());
    assert(after.records()[0] == b);
    assert(after.records()[0].len() == after.image().len() - stored_offset(after.image(), 0));
}

/// The records of a well-formed image take no more bytes than the image.
proof fn lemma_records_total_len(f: Seq<u8>, n: int)
    requires
        image_ok(f),
        0 <= n <= stored_used(f),
    ensures
        total_len(records_of(f).take(n)) <= if n == 0 {
            0
        } else {
            record_end(f, n - 1)
        },
        n == stored_used(f) ==> total_len(records_of(f).take(n)) <= f.len(),
    decreases n,
{
    if n > 0 {
        lemma_records_total_len(f, n - 1);
        let recs = records_of(f);
        assert(recs.take(n).drop_last() =~= recs.take(n - 1));
        lemma_record_bounds(f, n - 1);
        if n > 1 {
            lemma_record_bounds(f, n - 2);
        }
    }
    if n == stored_used(f) {
        assert(records_of(f).take(n) =~= records_of(f));
        if n > 0 {
            lemma_record_bounds(f, n - 1);
        }
    }
}

} // verus!
