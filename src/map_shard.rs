use crate::data_shard::{lemma_total_len_prefix, row_views, total_len, DataShard};
use crate::errors::ShardErrors;
use crate::header::{fresh_image, image_ok, offset_pos, DEFAULT_MAX_OFFSETS};
use vstd::prelude::*;

verus! {

/// The concatenation of `parts`, in order.
pub open spec fn concat_all(parts: Seq<Seq<Seq<u8>>>) -> Seq<Seq<u8>>
    decreases parts.len(),
{
    if parts.len() == 0 {
        Seq::empty()
    } else {
        concat_all(parts.drop_last()) + parts.last()
    }
}

/// Concatenating one more part appends it.
pub proof fn lemma_concat_all_push(parts: Seq<Seq<Seq<u8>>>, p: Seq<Seq<u8>>)
    ensures
        concat_all(parts.push(p)) == concat_all(parts) + p,
{
    assert(parts.push(p).drop_last() =~= parts);
}

/// Element `k` of part `i` stands at the length of the parts before it, plus `k`.
pub proof fn lemma_concat_all_index(parts: Seq<Seq<Seq<u8>>>, i: int, k: int)
    requires
        0 <= i < parts.len(),
        0 <= k < parts[i].len(),
    ensures
        concat_all(parts.take(i)).len() + k < concat_all(parts).len(),
        concat_all(parts)[concat_all(parts.take(i)).len() + k] == parts[i][k],
    decreases parts.len(),
{
    let last = parts.len() - 1;
    if i == last {
        assert(parts.take(i) =~= parts.drop_last());
    } else {
        lemma_concat_all_index(parts.drop_last(), i, k);
        assert(parts.drop_last().take(i) =~= parts.take(i));
    }
}

/// The concatenation of the first `i + 1` parts extends that of the first `i`.
pub proof fn lemma_concat_all_take(parts: Seq<Seq<Seq<u8>>>, i: int)
    requires
        0 <= i < parts.len(),
    ensures
        concat_all(parts.take(i + 1)) == concat_all(parts.take(i)) + parts[i],
{
    assert(parts.take(i + 1).drop_last() =~= parts.take(i));
}

/// `s` is the shard opened over `img`: that image itself, or for an empty
/// image a fresh shard of `cap` slots.
pub open spec fn shard_from_image(s: DataShard, img: Seq<u8>, cap: u64) -> bool {
    if img.len() == 0 {
        &&& s.image() == fresh_image(cap, s.shard_id())
        &&& s.image().len() == offset_pos(cap as int)
        &&& s.capacity() == cap
        &&& s.records().len() == 0
    } else {
        s.image() == img
    }
}

/// One writable current shard and the read-only shards that filled before it,
/// presented as a single sequence of records.
#[derive(Debug)]
pub struct MapShard {
    pub current_master_shard: DataShard,
    pub past_master_shards: Vec<DataShard>,
    /// Capacity given to each shard this map creates.
    pub max_offsets: u64,
}

impl MapShard {
    /// Every shard is well formed, and shards this map creates have at least one slot.
    pub open spec fn wf(&self) -> bool {
        &&& self.current_master_shard.wf()
        &&& forall|i: int|
            0 <= i < self.past_master_shards@.len() ==> #[trigger] self.past_master_shards@[i].wf()
        &&& 1 <= self.max_offsets
        &&& offset_pos(self.max_offsets as int) <= usize::MAX
    }

    /// `m` is the map shard opened over `images` (oldest first) with `cap`
    /// slots for the shards it creates: the last image is the current shard,
    /// the others the past ones, and with no image the current shard is fresh.
    pub open spec fn opened_from(m: MapShard, images: Seq<Seq<u8>>, cap: u64) -> bool {
        &&& m.max_offsets == cap
        &&& images.len() == 0 ==> {
            &&& m.past_master_shards@.len() == 0
            &&& shard_from_image(m.current_master_shard, Seq::empty(), cap)
        }
        &&& images.len() > 0 ==> {
            &&& m.past_master_shards@.len() == images.len() - 1
            &&& forall|i: int|
                0 <= i < images.len() - 1 ==> shard_from_image(
                    #[trigger] m.past_master_shards@[i],
                    images[i],
                    cap,
                )
            &&& shard_from_image(m.current_master_shard, images.last(), cap)
        }
    }

    /// The records of each past shard, oldest first.
    pub open spec fn past_records(&self) -> Seq<Seq<Seq<u8>>> {
        self.past_master_shards@.map_values(|s: DataShard| s.records())
    }

    /// All records in global-index order: the past shards, then the current one.
    pub open spec fn elements(&self) -> Seq<Seq<u8>> {
        concat_all(self.past_records()) + self.current_master_shard.records()
    }

    /// Opens a map shard over shard images given oldest first. The last one
    /// becomes the current shard, or a fresh shard of `max_offsets` slots
    /// (default `DEFAULT_MAX_OFFSETS`) when there is none. An empty image gets a
    /// fresh header; any other must be well formed (else `InvalidHeader`). A
    /// capacity of zero is refused with `OutOfPositions`.
    pub fn new(images: Vec<Vec<u8>>, max_offsets: Option<u64>) -> (r: Result<Self, ShardErrors>)
        requires
            offset_pos(
                match max_offsets {
                    Some(m) => m as int,
                    None => DEFAULT_MAX_OFFSETS as int,
                },
            ) <= usize::MAX,
        ensures
            r is Ok <==> (match max_offsets {
                Some(m) => m,
                None => DEFAULT_MAX_OFFSETS,
            }) >= 1 && forall|i: int|
                0 <= i < images@.len() ==> #[trigger] images@[i]@.len() == 0 || image_ok(
                    images@[i]@,
                ),
            r matches Err(e) ==> e == ShardErrors::OutOfPositions || e
                == ShardErrors::InvalidHeader,
            r matches Ok(m) ==> {
                &&& m.wf()
                &&& Self::opened_from(
                    m,
                    row_views(images@),
                    match max_offsets {
                        Some(c) => c,
                        None => DEFAULT_MAX_OFFSETS,
                    },
                )
                &&& images@.len() == 0 ==> m.elements() == Seq::<Seq<u8>>::empty()
                    && m.past_master_shards@.len() == 0
                &&& images@.len() > 0 ==> {
                    &&& m.past_master_shards@.len() == images@.len() - 1
                    &&& forall|i: int|
                        0 <= i < images@.len() - 1 && images@[i]@.len() != 0
                            ==> #[trigger] m.past_master_shards@[i].image() == images@[i]@
                    &&& images@.last()@.len() != 0 ==> m.current_master_shard.image()
                        == images@.last()@
                }
            },
    {
        let cap = match max_offsets {
            Some(m) => m,
            None => DEFAULT_MAX_OFFSETS,
        };
        let mut shards: Vec<DataShard> = Vec::new();
        let mut i: usize = 0;
        while i < images.len()
            invariant
                i <= images@.len(),
                offset_pos(cap as int) <= usize::MAX,
                shards@.len() == i,
                forall|j: int| 0 <= j < i ==> #[trigger] images@[j]@.len() == 0 || image_ok(images@[j]@),
                forall|j: int| 0 <= j < i ==> #[trigger] shards@[j].wf(),
                forall|j: int|
                    0 <= j < i && images@[j]@.len() != 0 ==> #[trigger] shards@[j].image()
                        == images@[j]@,
                forall|j: int| 0 <= j < i ==> shard_from_image(#[trigger] shards@[j], images@[j]@, cap),
            decreases images@.len() - i,
        {
            match DataShard::from_file(images[i].clone(), Some(cap), None) {
                Ok(s) => {
                    shards.push(s);
                },
                Err(e) => {
                    return Err(e);
                },
            }
            i = i + 1;
        }
        if cap == 0 {
            return Err(ShardErrors::OutOfPositions);
        }
        let ghost all = shards@;
        let current = match shards.pop() {
            Some(s) => s,
            None => DataShard::new(cap),
        };
        let m = MapShard { current_master_shard: current, past_master_shards: shards, max_offsets: cap };
        proof {
            let imgs = row_views(images@);
            if imgs.len() > 0 {
                assert(shards@ =~= all.drop_last());
                assert(imgs.last() == images@[images@.len() - 1]@);
                assert forall|i: int| 0 <= i < imgs.len() - 1 implies shard_from_image(
                    #[trigger] m.past_master_shards@[i],
                    imgs[i],
                    cap,
                ) by {
                    assert(m.past_master_shards@[i] == all[i]);
                }
            } else {
                assert(shard_from_image(m.current_master_shard, Seq::empty(), cap));
            }
        }
        Ok(m)
    }

    /// Number of records over all shards.
    pub fn total_used_slots(&self) -> (r: u64)
        requires
            self.wf(),
            self.elements().len() <= u64::MAX,
        ensures
            r == self.elements().len(),
    {
        let mut total: u64 = 0;
        let mut i: usize = 0;
        while i < self.past_master_shards.len()
            invariant
                self.wf(),
                self.elements().len() <= u64::MAX,
                i <= self.past_master_shards@.len(),
                total == concat_all(self.past_records().take(i as int)).len(),
            decreases self.past_master_shards@.len() - i,
        {
            proof {
                lemma_concat_all_take(self.past_records(), i as int);
                lemma_concat_prefix_len(self.past_records(), (i + 1) as int);
            }
            total = total + self.past_master_shards[i].len();
            i = i + 1;
        }
        proof {
            assert(self.past_records().take(i as int) =~= self.past_records());
        }
        total + self.current_master_shard.len()
    }

    /// The record at global index `index`; `UnknownEntry` past the last record.
    pub fn get_element(&self, index: usize) -> (r: Result<Vec<u8>, ShardErrors>)
        requires
            self.wf(),
        ensures
            r is Ok <==> index < self.elements().len(),
            r matches Ok(b) ==> b@ == self.elements()[index as int],
            r matches Err(e) ==> e == ShardErrors::UnknownEntry,
    {
        let ghost parts = self.past_records();
        let mut rem: usize = index;
        let mut i: usize = 0;
        while i < self.past_master_shards.len()
            invariant
                self.wf(),
                parts == self.past_records(),
                i <= self.past_master_shards@.len(),
                rem + concat_all(parts.take(i as int)).len() == index,
            decreases self.past_master_shards@.len() - i,
        {
            proof {
                self.past_master_shards@[i as int].lemma_bounds();
                lemma_concat_all_take(parts, i as int);
            }
            let n = self.past_master_shards[i].len() as usize;
            if rem < n {
                proof {
                    lemma_concat_all_index(parts, i as int, rem as int);
                }
                return self.past_master_shards[i].read_item_from_index(rem);
            }
            rem = rem - n;
            i = i + 1;
        }
        proof {
            assert(parts.take(i as int) =~= parts);
        }
        self.current_master_shard.read_item_from_index(rem)
    }

    /// The record in slot `index` of the current shard.
    pub fn get_element_from_master(&self, index: usize) -> (r: Result<Vec<u8>, ShardErrors>)
        requires
            self.wf(),
        ensures
            r is Ok <==> index < self.current_master_shard.records().len(),
            r matches Ok(b) ==> b@ == self.current_master_shard.records()[index as int],
            r matches Err(e) ==> e == ShardErrors::UnknownEntry,
    {
        self.current_master_shard.read_item_from_index(index)
    }

    /// Appends `row` and returns its global index. When the current shard is
    /// full it first rolls over: a fresh shard of `max_offsets` slots becomes
    /// current and the full one joins the past shards.
    pub fn insert_row(&mut self, row: &Vec<u8>) -> (r: u64)
        requires
            old(self).wf(),
            old(self).current_master_shard.image().len() + row@.len() <= usize::MAX,
            offset_pos(old(self).max_offsets as int) + row@.len() <= usize::MAX,
            old(self).elements().len() < u64::MAX,
        ensures
            final(self).wf(),
            final(self).max_offsets == old(self).max_offsets,
            r == old(self).elements().len(),
            final(self).elements() == old(self).elements().push(row@),
            old(self).current_master_shard.records().len()
                < old(self).current_master_shard.capacity() ==> {
                &&& final(self).past_records() == old(self).past_records()
                &&& final(self).current_master_shard.records()
                    == old(self).current_master_shard.records().push(row@)
                &&& final(self).current_master_shard.image().len()
                    == old(self).current_master_shard.image().len() + row@.len()
            },
            old(self).current_master_shard.records().len()
                == old(self).current_master_shard.capacity() ==> {
                &&& final(self).past_records() == old(self).past_records().push(
                    old(self).current_master_shard.records(),
                )
                &&& final(self).current_master_shard.records() == seq![row@]
                &&& final(self).current_master_shard.capacity() == old(self).max_offsets
                &&& final(self).current_master_shard.image().len() == offset_pos(
                    old(self).max_offsets as int,
                ) + row@.len()
            },
    {
        proof {
            self.current_master_shard.lemma_bounds();
        }
        let index = self.total_used_slots();
        if !self.current_master_shard.has_space() {
            let mut fresh = DataShard::new(self.max_offsets);
            core::mem::swap(&mut self.current_master_shard, &mut fresh);
            self.past_master_shards.push(fresh);
            proof {
                assert(self.past_records() =~= old(self).past_records().push(
                    old(self).current_master_shard.records(),
                ));
                lemma_concat_all_push(
                    old(self).past_records(),
                    old(self).current_master_shard.records(),
                );
            }
        }
        let res = self.current_master_shard.insert_row(row);
        proof {
            assert(self.elements() =~= old(self).elements().push(row@));
        }
        index
    }

    /// Appends every row of `rows`, in order, rolling over as shards fill, and
    /// returns the global index of the first.
    pub fn insert_rows(&mut self, rows: &Vec<Vec<u8>>) -> (r: u64)
        requires
            old(self).wf(),
            old(self).current_master_shard.image().len() + total_len(row_views(rows@))
                <= usize::MAX,
            offset_pos(old(self).max_offsets as int) + total_len(row_views(rows@)) <= usize::MAX,
            old(self).elements().len() + rows@.len() <= u64::MAX,
        ensures
            final(self).wf(),
            final(self).max_offsets == old(self).max_offsets,
            r == old(self).elements().len(),
            final(self).elements() == old(self).elements() + row_views(rows@),
            final(self).current_master_shard.image().len() <= total_len(row_views(rows@)) + if old(
                self,
            ).current_master_shard.image().len() >= offset_pos(old(self).max_offsets as int) {
                old(self).current_master_shard.image().len() as int
            } else {
                offset_pos(old(self).max_offsets as int)
            },
    {
        let first = self.total_used_slots();
        let ghost all = row_views(rows@);
        let ghost bound: int = if old(self).current_master_shard.image().len() >= offset_pos(
            old(self).max_offsets as int,
        ) {
            old(self).current_master_shard.image().len() as int
        } else {
            offset_pos(old(self).max_offsets as int)
        };
        let mut i: usize = 0;
        while i < rows.len()
            invariant
                self.wf(),
                i <= rows@.len(),
                all == row_views(rows@),
                all.len() == rows@.len(),
                self.max_offsets == old(self).max_offsets,
                offset_pos(self.max_offsets as int) <= bound,
                self.current_master_shard.image().len() <= bound + total_len(all.take(i as int)),
                bound + total_len(all) <= usize::MAX,
                self.elements() == old(self).elements() + all.take(i as int),
                old(self).elements().len() + rows@.len() <= u64::MAX,
            decreases rows@.len() - i,
        {
            proof {
                lemma_total_len_prefix(all, i as int);
                lemma_total_len_prefix(all, (i + 1) as int);
                assert(all[i as int] == rows@[i as int]@);
            }
            self.insert_row(&rows[i]);
            proof {
                assert(all.take(i + 1) =~= all.take(i as int).push(all[i as int]));
            }
            i = i + 1;
        }
        proof {
            assert(all.take(i as int) =~= all);
        }
        first
    }
}

/// Opening the images of a map shard again gives the same past shards, in
/// the same order, and the same global indexing.
pub proof fn lemma_reopen_same(m: &MapShard, reopened: &MapShard)
    requires
        reopened.past_master_shards@.len() == m.past_master_shards@.len(),
        forall|i: int|
            0 <= i < m.past_master_shards@.len() ==> #[trigger] reopened.past_master_shards@[i].image()
                == m.past_master_shards@[i].image(),
        reopened.current_master_shard.image() == m.current_master_shard.image(),
    ensures
        reopened.past_records() == m.past_records(),
        reopened.elements() == m.elements(),
{
    assert(reopened.past_records() =~= m.past_records());
}

/// The images of a well-formed map shard are all non-empty and well formed,
/// so `MapShard::new` accepts them.
pub proof fn lemma_images_reopenable(m: &MapShard)
    requires
        m.wf(),
    ensures
        image_ok(m.current_master_shard.image()),
        m.current_master_shard.image().len() != 0,
        forall|i: int|
            0 <= i < m.past_master_shards@.len() ==> image_ok(
                #[trigger] m.past_master_shards@[i].image(),
            ) && m.past_master_shards@[i].image().len() != 0,
{
    assert forall|i: int| 0 <= i < m.past_master_shards@.len() implies image_ok(
        #[trigger] m.past_master_shards@[i].image(),
    ) && m.past_master_shards@[i].image().len() != 0 by {
        assert(m.past_master_shards@[i].wf());
    }
}

/// The length of a concatenated prefix never exceeds that of the whole.
pub proof fn lemma_concat_prefix_len(parts: Seq<Seq<Seq<u8>>>, i: int)
    requires
        0 <= i <= parts.len(),
    ensures
        concat_all(parts.take(i)).len() <= concat_all(parts).len(),
    decreases parts.len() - i,
{
    if i < parts.len() {
        lemma_concat_all_take(parts, i);
        lemma_concat_prefix_len(parts, i + 1);
    } else {
        assert(parts.take(i) =~= parts);
    }
}

} // verus!
