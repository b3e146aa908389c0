use crate::data_shard::{row_views, total_len};
use crate::errors::ShardErrors;
use crate::header::{image_ok, offset_pos, DEFAULT_MAX_OFFSETS};
use crate::index_data_unit::{entry_bytes, entry_size};
use crate::index_shard::IndexShard;
use crate::map_shard::{concat_all, MapShard};
use crate::table::Table;
use crate::temp_collection::{append_base, ReconciledRow, TempCollection};
use vstd::bytes::{spec_u64_from_le_bytes, spec_u64_to_le_bytes, u64_from_le_bytes, u64_to_le_bytes};
use vstd::prelude::*;
use vstd::string::StringExecFns;
use vstd::utf8::encode_utf8;

verus! {

/// Size of the keys of hash indexes.
pub const INDEX_KEY_SIZE: usize = 64;

/// Size of the values of hash indexes: a global row index as a little-endian `u64`.
pub const INDEX_VALUE_SIZE: usize = 8;

/// Capacities that a database applies to its tables.
#[derive(Debug, Clone, Copy)]
pub struct DatabaseConfig {
    pub max_rows_per_shard: u64,
    pub max_temporary_shards: u64,
    pub max_records_per_hash_index_shard: u64,
}

/// A decoded row as column names and the text of their non-null values.
pub open spec fn row_view(row: Seq<(String, String)>) -> Seq<(Seq<char>, Seq<char>)> {
    row.map_values(|p: (String, String)| (p.0@, p.1@))
}

/// The names held by `names`.
pub open spec fn names_view(names: Seq<String>) -> Seq<Seq<char>> {
    names.map_values(|m: String| m@)
}

/// The value the row gives column `col`: its first pair for that column.
pub open spec fn value_of(row: Seq<(Seq<char>, Seq<char>)>, col: Seq<char>) -> Option<Seq<char>>
    decreases row.len(),
{
    if row.len() == 0 {
        None
    } else if row[0].0 == col {
        Some(row[0].1)
    } else {
        value_of(row.drop_first(), col)
    }
}

/// The composite key of a row for an index on `members`: `column=value;` for
/// each member in order, with `null` for a member the row has no value for.
pub open spec fn composite_key(members: Seq<Seq<char>>, row: Seq<(Seq<char>, Seq<char>)>) -> Seq<
    char,
>
    decreases members.len(),
{
    if members.len() == 0 {
        Seq::empty()
    } else {
        composite_key(members.drop_last(), row) + members.last() + "="@ + match value_of(
            row,
            members.last(),
        ) {
            Some(v) => v,
            None => "null"@,
        } + ";"@
    }
}

/// A row enters an index when it has a value for at least one member.
pub open spec fn indexable(members: Seq<Seq<char>>, row: Seq<(Seq<char>, Seq<char>)>) -> bool {
    exists|i: int| 0 <= i < members.len() && value_of(row, #[trigger] members[i]) is Some
}

/// `b` cut or padded with zero bytes to `size` bytes.
pub open spec fn fit_key(b: Seq<u8>, size: int) -> Seq<u8> {
    if b.len() >= size {
        b.take(size)
    } else {
        b + Seq::new((size - b.len()) as nat, |i: int| 0u8)
    }
}

/// The key under which an index on `members` files `row`.
pub open spec fn index_key(members: Seq<Seq<char>>, row: Seq<(Seq<char>, Seq<char>)>) -> Seq<u8> {
    fit_key(encode_utf8(composite_key(members, row)), INDEX_KEY_SIZE as int)
}

/// The entries that an index on `members` receives for `data`: one per row
/// with a value for some member, in order, keyed by its composite key and
/// holding the row's global index.
pub open spec fn index_entries(
    members: Seq<Seq<char>>,
    data: Seq<(Vec<(String, String)>, u64)>,
) -> Seq<Seq<u8>>
    decreases data.len(),
{
    if data.len() == 0 {
        Seq::empty()
    } else {
        let prev = index_entries(members, data.drop_last());
        let row = row_view(data.last().0@);
        if indexable(members, row) {
            prev.push(entry_bytes(index_key(members, row), spec_u64_to_le_bytes(data.last().1)))
        } else {
            prev
        }
    }
}

/// The value of `row`'s column `col`.
fn lookup_value<'a>(row: &'a Vec<(String, String)>, col: &String) -> (r: Option<&'a String>)
    ensures
        match value_of(row_view(row@), col@) {
            Some(v) => r matches Some(s) && s@ == v,
            None => r is None,
        },
{
    let ghost rv = row_view(row@);
    let mut i: usize = 0;
    proof {
        assert(rv.skip(0) =~= rv);
    }
    while i < row.len()
        invariant
            i <= row@.len(),
            rv == row_view(row@),
            value_of(rv, col@) == value_of(rv.skip(i as int), col@),
        decreases row@.len() - i,
    {
        proof {
            assert(rv.skip(i as int)[0] == rv[i as int]);
            assert(rv.skip(i as int).drop_first() =~= rv.skip(i + 1));
        }
        if row[i].0 == *col {
            return Some(&row[i].1);
        }
        i = i + 1;
    }
    None
}

/// The composite key of `row` for an index on `members`, and whether the row
/// is indexable there.
fn build_composite_key(members: &Vec<String>, row: &Vec<(String, String)>) -> (r: (String, bool))
    ensures
        r.0@ == composite_key(names_view(members@), row_view(row@)),
        r.1 == indexable(names_view(members@), row_view(row@)),
{
    let ghost ms = names_view(members@);
    let ghost rv = row_view(row@);
    let mut key = String::new();
    let mut can_index = false;
    let mut i: usize = 0;
    while i < members.len()
        invariant
            i <= members@.len(),
            ms == names_view(members@),
            rv == row_view(row@),
            key@ == composite_key(ms.take(i as int), rv),
            can_index == exists|j: int| 0 <= j < i && value_of(rv, #[trigger] ms[j]) is Some,
        decreases members@.len() - i,
    {
        key.append(members[i].as_str());
        key.append("=");
        match lookup_value(row, &members[i]) {
            Some(v) => {
                key.append(v.as_str());
                can_index = true;
            },
            None => {
                key.append("null");
            },
        }
        key.append(";");
        proof {
            assert(ms.take(i + 1).drop_last() =~= ms.take(i as int));
            assert(ms.take(i + 1).last() == ms[i as int]);
            if value_of(rv, ms[i as int]) is Some {
                assert(exists|j: int| 0 <= j < i + 1 && value_of(rv, #[trigger] ms[j]) is Some);
            }
        }
        i = i + 1;
    }
    proof {
        assert(ms.take(i as int) =~= ms);
    }
    (key, can_index)
}

/// The key bytes for `key`: its UTF-8 bytes cut or zero-padded to `INDEX_KEY_SIZE`.
fn fit_key_bytes(key: &String) -> (r: Vec<u8>)
    ensures
        r@ == fit_key(encode_utf8(key@), INDEX_KEY_SIZE as int),
{
    let b = key.as_str().as_bytes();
    let mut out: Vec<u8> = Vec::new();
    let mut i: usize = 0;
    while i < INDEX_KEY_SIZE
        invariant
            i <= INDEX_KEY_SIZE,
            b@ == encode_utf8(key@),
            out@.len() == i,
            forall|j: int|
                0 <= j < i ==> #[trigger] out@[j] == fit_key(encode_utf8(key@), INDEX_KEY_SIZE as int)[j],
        decreases INDEX_KEY_SIZE - i,
    {
        if i < b.len() {
            out.push(b[i]);
        } else {
            out.push(0u8);
        }
        i = i + 1;
    }
    proof {
        assert(out@ =~= fit_key(encode_utf8(key@), INDEX_KEY_SIZE as int));
    }
    out
}

/// One table: its data map shard, the temp ring in front of it, and one
/// index shard per declared index, in the table's index order.
#[derive(Debug)]
pub struct TableShard {
    pub table: Table,
    pub scheme: String,
    pub temps: TempCollection,
    pub indexes: Vec<IndexShard>,
}

impl TableShard {
    /// The ring, the schema and one hash index per declared index are well formed.
    pub open spec fn wf(&self) -> bool {
        &&& self.temps.wf()
        &&& self.table.wf()
        &&& self.indexes@.len() == self.table.indexes@.len()
        &&& forall|k: int| 0 <= k < self.indexes@.len() ==> Self::index_ok(#[trigger] self.indexes@[k])
    }

    /// A hash index of this table: well formed, with the hash-index sizes, kept in key order.
    pub open spec fn index_ok(i: IndexShard) -> bool {
        &&& i.wf()
        &&& i.key_size == INDEX_KEY_SIZE
        &&& i.value_size == INDEX_VALUE_SIZE
        &&& i.binary_order
    }

    /// An index before the `k`-th one is also called `name`.
    pub open spec fn named_earlier(table: Table, name: Seq<char>, k: int) -> bool {
        exists|j: int| 0 <= j < k && #[trigger] table.indexes@[j].name@ == name
    }

    /// Every image is empty or a well-formed shard file.
    pub open spec fn images_ok(images: Seq<Seq<u8>>) -> bool {
        forall|i: int| 0 <= i < images.len() ==> #[trigger] images[i].len() == 0 || image_ok(images[i])
    }

    /// The shard images the `k`-th index opens over: `index_images[k]`, or none.
    pub open spec fn index_images_at(index_images: Seq<Vec<Vec<u8>>>, k: int) -> Seq<Seq<u8>> {
        if 0 <= k < index_images.len() {
            row_views(index_images[k]@)
        } else {
            Seq::empty()
        }
    }

    /// `new` succeeds on these arguments: the capacities it needs are at least
    /// one and every image is empty or well formed.
    pub open spec fn can_open(
        table: Table,
        config: DatabaseConfig,
        data_images: Seq<Seq<u8>>,
        index_images: Seq<Vec<Vec<u8>>>,
    ) -> bool {
        &&& config.max_rows_per_shard >= 1
        &&& Self::images_ok(data_images)
        &&& table.indexes@.len() > 0 ==> config.max_records_per_hash_index_shard >= 1
        &&& forall|k: int|
            0 <= k < table.indexes@.len() ==> Self::images_ok(
                #[trigger] Self::index_images_at(index_images, k),
            )
    }

    /// Member names of the `k`-th index.
    pub open spec fn members(&self, k: int) -> Seq<Seq<char>> {
        names_view(self.table.indexes@[k].members@)
    }

    /// Sets up a table over the images of its data shards and of each index's
    /// shards (oldest first; missing or empty ones start fresh).
    pub fn new(
        table: Table,
        scheme: &str,
        config: &DatabaseConfig,
        data_images: Vec<Vec<u8>>,
        index_images: Vec<Vec<Vec<u8>>>,
    ) -> (r: Result<Self, ShardErrors>)
        requires
            table.wf(),
            offset_pos(config.max_rows_per_shard as int) <= usize::MAX,
            offset_pos(config.max_records_per_hash_index_shard as int) <= usize::MAX,
            offset_pos(crate::header::DEFAULT_MAX_OFFSETS as int) <= usize::MAX,
        ensures
            r is Ok <==> Self::can_open(table, *config, row_views(data_images@), index_images@),
            r matches Ok(t) ==> {
                &&& t.wf()
                &&& t.table == table
                &&& t.scheme@ == scheme@
                &&& MapShard::opened_from(
                    t.temps.target_shard,
                    row_views(data_images@),
                    config.max_rows_per_shard,
                )
                &&& forall|k: int|
                    0 <= k < t.indexes@.len() ==> MapShard::opened_from(
                        (#[trigger] t.indexes@[k]).data,
                        Self::index_images_at(index_images@, k),
                        config.max_records_per_hash_index_shard,
                    )
                &&& t.temps.temps@.len() == config.max_temporary_shards
                &&& t.temps.counter == 0
                &&& forall|i: int|
                    0 <= i < t.temps.temps@.len() ==> {
                        &&& (#[trigger] t.temps.temps@[i]).rows().len() == 0
                        &&& t.temps.temps@[i].data.capacity() == DEFAULT_MAX_OFFSETS
                        &&& t.temps.temps@[i].data.image().len() == offset_pos(
                            DEFAULT_MAX_OFFSETS as int,
                        )
                    }
            },
            r matches Err(e) ==> e == ShardErrors::OutOfPositions || e
                == ShardErrors::InvalidHeader,
    {
        let ghost dv = row_views(data_images@);
        proof {
            assert(Self::images_ok(dv) == forall|i: int|
                0 <= i < data_images@.len() ==> #[trigger] data_images@[i]@.len() == 0 || image_ok(
                    data_images@[i]@,
                )) by {
                if Self::images_ok(dv) {
                    assert forall|i: int| 0 <= i < data_images@.len() implies #[trigger] data_images@[i]@.len() == 0
                        || image_ok(data_images@[i]@) by {
                        assert(dv[i] == data_images@[i]@);
                    }
                }
            }
        }
        let map_shard = match MapShard::new(data_images, Some(config.max_rows_per_shard)) {
            Ok(m) => m,
            Err(e) => {
                return Err(e);
            },
        };
        let temps = TempCollection::new(map_shard, config.max_temporary_shards, None);
        let mut indexes: Vec<IndexShard> = Vec::new();
        let ghost iv = index_images@;
        let mut images = index_images;
        let mut k: usize = 0;
        while k < table.indexes.len()
            invariant
                table.wf(),
                k <= table.indexes@.len(),
                indexes@.len() == k,
                iv == index_images@,
                images@ == iv.subrange(if k < iv.len() { k as int } else { iv.len() as int }, iv.len() as int),
                offset_pos(config.max_records_per_hash_index_shard as int) <= usize::MAX,
                forall|j: int|
                    0 <= j < k ==> MapShard::opened_from(
                        (#[trigger] indexes@[j]).data,
                        Self::index_images_at(iv, j),
                        config.max_records_per_hash_index_shard,
                    ),
                forall|j: int|
                    0 <= j < k ==> Self::images_ok(#[trigger] Self::index_images_at(iv, j)),
                config.max_records_per_hash_index_shard >= 1 || k == 0,
                forall|j: int|
                    0 <= j < k ==> {
                        &&& (#[trigger] indexes@[j]).wf()
                        &&& indexes@[j].key_size == INDEX_KEY_SIZE
                        &&& indexes@[j].value_size == INDEX_VALUE_SIZE
                        &&& indexes@[j].binary_order
                    },
            decreases table.indexes@.len() - k,
        {
            let shard_images = if images.len() > 0 {
                images.remove(0)
            } else {
                Vec::new()
            };
            let ghost sv = shard_images@;
            proof {
                assert(row_views(sv) =~= Self::index_images_at(iv, k as int));
                assert(Self::images_ok(Self::index_images_at(iv, k as int)) == forall|i: int|
                    0 <= i < sv.len() ==> #[trigger] sv[i]@.len() == 0 || image_ok(sv[i]@)) by {
                    if Self::images_ok(Self::index_images_at(iv, k as int)) {
                        assert forall|i: int| 0 <= i < sv.len() implies #[trigger] sv[i]@.len() == 0
                            || image_ok(sv[i]@) by {
                            assert(row_views(sv)[i] == sv[i]@);
                        }
                    }
                }
            }
            let index_obj = match IndexShard::new(
                shard_images,
                INDEX_KEY_SIZE,
                INDEX_VALUE_SIZE,
                Some(config.max_records_per_hash_index_shard),
                Some(true),
            ) {
                Ok(i) => i,
                Err(e) => {
                    proof {
                        assert(!Self::images_ok(Self::index_images_at(iv, k as int))
                            || config.max_records_per_hash_index_shard < 1);
                        assert(table.indexes@.len() > 0);
                        assert(!Self::can_open(table, *config, row_views(data_images@), iv));
                    }
                    return Err(e);
                },
            };
            let ghost before = indexes@;
            indexes.push(index_obj);
            proof {
                assert forall|j: int| 0 <= j < k + 1 implies MapShard::opened_from(
                    (#[trigger] indexes@[j]).data,
                    Self::index_images_at(iv, j),
                    config.max_records_per_hash_index_shard,
                ) by {
                    if j < k {
                        assert(indexes@[j] == before[j]);
                    }
                }
                assert(iv.subrange(if k + 1 < iv.len() { k + 1 } else { iv.len() as int }, iv.len() as int)
                    =~= images@);
            }
            k = k + 1;
        }
        let tbl_shard = TableShard { table, scheme: scheme.to_owned(), temps, indexes };
        proof {
            assert forall|i: int| 0 <= i < tbl_shard.temps.temps@.len() implies (#[trigger] tbl_shard.temps.temps@[i]).rows().len() == 0 by {
                assert(tbl_shard.temps.pending()[i].len() == 0);
            }
            assert forall|j: int| 0 <= j < tbl_shard.indexes@.len() implies Self::index_ok(#[trigger] tbl_shard.indexes@[j]) by {
                assert(tbl_shard.indexes@[j].wf());
            }
            assert(Self::can_open(tbl_shard.table, *config, row_views(data_images@), iv));
        }
        Ok(tbl_shard)
    }

    /// Buffers one serialized row in the temp ring.
    pub fn insert_row(&mut self, row: Vec<u8>) -> (r: Result<u64, ShardErrors>)
        requires
            old(self).wf(),
            forall|k: int|
                0 <= k < old(self).temps.temps@.len() ==> (#[trigger] old(self).temps.temps@[k]).data.image().len()
                    + row@.len() <= usize::MAX,
        ensures
            final(self).wf(),
            final(self).table == old(self).table,
            final(self).indexes == old(self).indexes,
            final(self).temps.target_shard == old(self).temps.target_shard,
            old(self).temps.temps@.len() > 0 ==> {
                let i = old(self).temps.next_slot();
                &&& (r is Ok <==> old(self).temps.pending()[i].len() + 1
                    <= old(self).temps.temps@[i].data.capacity())
                &&& (r is Ok ==> final(self).temps.pending() == old(self).temps.pending().update(
                    i,
                    old(self).temps.pending()[i].push(row@),
                ))
            },
            old(self).temps.temps@.len() == 0 ==> r is Err,
    {
        let mut rows: Vec<Vec<u8>> = Vec::new();
        let ghost rv = row@;
        rows.push(row);
        proof {
            assert(row_views(rows@) =~= seq![rv]);
            assert(seq![rv] =~= Seq::<Seq<u8>>::empty().push(rv));
            crate::data_shard::lemma_total_len_push(Seq::<Seq<u8>>::empty(), rv);
        }
        let r = self.temps.insert(&rows);
        proof {
            if self.temps.temps@.len() > 0 {
                let i = old(self).temps.next_slot();
                assert(old(self).temps.pending()[i] + seq![rv] =~= old(self).temps.pending()[i].push(rv));
            }
        }
        r
    }

    /// Moves every buffered row into the data map shard; returns them with
    /// their global indexes, for the caller to decode and index.
    pub fn reconcile(&mut self) -> (r: Vec<ReconciledRow>)
        requires
            old(self).wf(),
            append_base(old(self).temps.target_shard) + total_len(concat_all(old(self).temps.pending()))
                <= usize::MAX,
            old(self).temps.target_shard.elements().len() + concat_all(
                old(self).temps.pending(),
            ).len() <= u64::MAX,
        ensures
            final(self).wf(),
            final(self).table == old(self).table,
            final(self).indexes == old(self).indexes,
            TempCollection::reconciled(old(self).temps, final(self).temps, r@),
    {
        self.temps.reconcile_all()
    }

    /// Files each row that has a value for at least one member of an index
    /// under its composite key in that index, with its global index as value.
    pub fn insert_indexes(&mut self, data: &Vec<(Vec<(String, String)>, u64)>)
        requires
            old(self).wf(),
            forall|k: int|
                0 <= k < old(self).indexes@.len() ==> {
                    &&& #[trigger] old(self).indexes@[k].data.current_master_shard.image().len()
                        + data@.len() * entry_size(INDEX_KEY_SIZE as int, INDEX_VALUE_SIZE as int)
                        <= usize::MAX
                    &&& offset_pos(old(self).indexes@[k].data.max_offsets as int) + data@.len()
                        * entry_size(INDEX_KEY_SIZE as int, INDEX_VALUE_SIZE as int) <= usize::MAX
                    &&& old(self).indexes@[k].data.elements().len() + data@.len() <= u64::MAX
                },
        ensures
            final(self).wf(),
            final(self).table == old(self).table,
            final(self).temps == old(self).temps,
            forall|k: int|
                0 <= k < old(self).indexes@.len() ==> (#[trigger] final(self).indexes@[k]).data.elements().to_multiset()
                    == old(self).indexes@[k].data.elements().to_multiset().add(
                    index_entries(old(self).members(k), data@).to_multiset(),
                ),
            forall|k: int, x: Seq<u8>|
                0 <= k < old(self).indexes@.len() && (#[trigger] old(self).indexes@[k].data.elements().contains(x))
                    ==> final(self).indexes@[k].data.elements().contains(x),
            forall|k: int, i: int|
                0 <= k < old(self).indexes@.len() && 0 <= i < data@.len() && indexable(
                    old(self).members(k),
                    row_view(#[trigger] data@[i].0@),
                ) ==> #[trigger] final(self).indexes@[k].data.elements().contains(
                    entry_bytes(
                        index_key(old(self).members(k), row_view(data@[i].0@)),
                        spec_u64_to_le_bytes(data@[i].1),
                    ),
                ),
    {
        let mut k: usize = 0;
        while k < self.indexes.len()
            invariant
                self.wf(),
                self.table == old(self).table,
                self.temps == old(self).temps,
                self.indexes@.len() == old(self).indexes@.len(),
                k <= self.indexes@.len(),
                forall|j: int| k <= j < self.indexes@.len() ==> #[trigger] self.indexes@[j] == old(self).indexes@[j],
                forall|j: int|
                    0 <= j < k ==> (#[trigger] self.indexes@[j]).data.elements().to_multiset()
                        == old(self).indexes@[j].data.elements().to_multiset().add(
                        index_entries(old(self).members(j), data@).to_multiset(),
                    ),
                forall|j: int, x: Seq<u8>|
                    0 <= j < k && #[trigger] old(self).indexes@[j].data.elements().contains(x)
                        ==> self.indexes@[j].data.elements().contains(x),
                forall|j: int, i: int|
                    0 <= j < k && 0 <= i < data@.len() && indexable(
                        old(self).members(j),
                        row_view(#[trigger] data@[i].0@),
                    ) ==> #[trigger] self.indexes@[j].data.elements().contains(
                        entry_bytes(
                            index_key(old(self).members(j), row_view(data@[i].0@)),
                            spec_u64_to_le_bytes(data@[i].1),
                        ),
                    ),
                forall|j: int|
                    0 <= j < old(self).indexes@.len() ==> {
                        &&& #[trigger] old(self).indexes@[j].data.current_master_shard.image().len()
                            + data@.len() * entry_size(INDEX_KEY_SIZE as int, INDEX_VALUE_SIZE as int)
                            <= usize::MAX
                        &&& offset_pos(old(self).indexes@[j].data.max_offsets as int) + data@.len()
                            * entry_size(INDEX_KEY_SIZE as int, INDEX_VALUE_SIZE as int) <= usize::MAX
                        &&& old(self).indexes@[j].data.elements().len() + data@.len() <= u64::MAX
                    },
            decreases self.indexes@.len() - k,
        {
            let ghost ms = self.members(k as int);
            let mut pairs: Vec<(Vec<u8>, Vec<u8>)> = Vec::new();
            let mut n: usize = 0;
            proof {
                assert(data@.take(0) =~= Seq::<(Vec<(String, String)>, u64)>::empty());
                assert(pairs@.map_values(|p: (Vec<u8>, Vec<u8>)| entry_bytes(p.0@, p.1@)) =~= index_entries(
                    ms,
                    data@.take(0),
                ));
            }
            while n < data.len()
                invariant
                    self.wf(),
                    k < self.indexes@.len(),
                    ms == self.members(k as int),
                    n <= data@.len(),
                    pairs@.len() <= n,
                    pairs@.map_values(|p: (Vec<u8>, Vec<u8>)| entry_bytes(p.0@, p.1@)) == index_entries(
                        ms,
                        data@.take(n as int),
                    ),
                    forall|p: int|
                        0 <= p < pairs@.len() ==> (#[trigger] pairs@[p]).0@.len() == INDEX_KEY_SIZE
                            && pairs@[p].1@.len() == INDEX_VALUE_SIZE,
                    forall|i: int|
                        0 <= i < n && indexable(ms, row_view(#[trigger] data@[i].0@)) ==> exists|
                            p: int,
                        |
                            0 <= p < pairs@.len() && #[trigger] pairs@[p].0@ == index_key(
                                ms,
                                row_view(data@[i].0@),
                            ) && pairs@[p].1@ == spec_u64_to_le_bytes(data@[i].1),
                decreases data@.len() - n,
            {
                let (key, can_index) = build_composite_key(
                    &self.table.indexes[k].members,
                    &data[n].0,
                );
                if can_index {
                    let key_bytes = fit_key_bytes(&key);
                    let value = u64_to_le_bytes(data[n].1);
                    let ghost p = pairs@.len() as int;
                    let ghost old_pairs = pairs@;
                    pairs.push((key_bytes, value));
                    proof {
                        assert(pairs@[p].0@ == index_key(ms, row_view(data@[n as int].0@)));
                        assert forall|i: int|
                            0 <= i < n + 1 && indexable(ms, row_view(#[trigger] data@[i].0@)) implies exists|
                            slot: int,
                        |
                            0 <= slot < pairs@.len() && #[trigger] pairs@[slot].0@ == index_key(
                                ms,
                                row_view(data@[i].0@),
                            ) && pairs@[slot].1@ == spec_u64_to_le_bytes(data@[i].1) by {
                            if i < n {
                                let earlier = choose|earlier: int|
                                    0 <= earlier < old_pairs.len() && #[trigger] old_pairs[earlier].0@ == index_key(
                                        ms,
                                        row_view(data@[i].0@),
                                    ) && old_pairs[earlier].1@ == spec_u64_to_le_bytes(data@[i].1);
                                assert(pairs@[earlier] == old_pairs[earlier]);
                            } else {
                                assert(pairs@[p].1@ == spec_u64_to_le_bytes(data@[i].1));
                            }
                        }
                    }
                }
                proof {
                    let dt = data@.take(n + 1);
                    assert(dt.drop_last() =~= data@.take(n as int));
                    assert(dt.last() == data@[n as int]);
                    assert(pairs@.map_values(|p: (Vec<u8>, Vec<u8>)| entry_bytes(p.0@, p.1@))
                        =~= index_entries(ms, dt));
                }
                n = n + 1;
            }
            proof {
                assert(data@.take(n as int) =~= data@);
                assert(Self::index_ok(self.indexes@[k as int]));
            }
            let mut index = self.indexes.remove(k);
            proof {
                assert(index == old(self).indexes@[k as int]);
                assert((pairs@.len() as int) * entry_size(INDEX_KEY_SIZE as int, INDEX_VALUE_SIZE as int)
                    <= (data@.len() as int) * entry_size(INDEX_KEY_SIZE as int, INDEX_VALUE_SIZE as int))
                    by (nonlinear_arith)
                    requires
                        pairs@.len() <= data@.len(),
                ;
            }
            let ghost pv = pairs@;
            index.raw_insert(pairs);
            self.indexes.insert(k, index);
            proof {
                assert forall|i: int|
                    0 <= i < data@.len() && indexable(ms, row_view(#[trigger] data@[i].0@)) implies index.data.elements().contains(
                    entry_bytes(index_key(ms, row_view(data@[i].0@)), spec_u64_to_le_bytes(data@[i].1)),
                ) by {
                    let p = choose|p: int|
                        0 <= p < pv.len() && #[trigger] pv[p].0@ == index_key(
                            ms,
                            row_view(data@[i].0@),
                        ) && pv[p].1@ == spec_u64_to_le_bytes(data@[i].1);
                    assert(index.data.elements().contains(entry_bytes(pv[p].0@, pv[p].1@)));
                }
            }
            k = k + 1;
        }
    }

    /// Global index of the row filed under the composite key of `row` in the
    /// index called `index_name`, when that index holds one.
    pub fn find_by_index(&self, index_name: &str, row: &Vec<(String, String)>) -> (r: Option<u64>)
        requires
            self.wf(),
            forall|k: int|
                0 <= k < self.indexes@.len() ==> #[trigger] self.indexes@[k].data.elements().len()
                    <= u64::MAX,
        ensures
            r matches Some(pos) ==> exists|k: int|
                0 <= k < self.indexes@.len() && #[trigger] self.table.indexes@[k].name@
                    == index_name@ && self.indexes@[k].data.elements().contains(
                    entry_bytes(
                        index_key(self.members(k), row_view(row@)),
                        spec_u64_to_le_bytes(pos),
                    ),
                ),
            r is None ==> forall|k: int|
                0 <= k < self.indexes@.len() && #[trigger] self.table.indexes@[k].name@
                    == index_name@ ==> Self::named_earlier(self.table, index_name@, k)
                    || self.indexes@[k].absent_where_sorted(
                    index_key(self.members(k), row_view(row@)),
                ),
    {
        let name = index_name.to_owned();
        let mut k: usize = 0;
        while k < self.table.indexes.len()
            invariant
                self.wf(),
                k <= self.table.indexes@.len(),
                name@ == index_name@,
                forall|j: int|
                    0 <= j < k ==> #[trigger] self.table.indexes@[j].name@ != index_name@,
                forall|j: int|
                    0 <= j < self.indexes@.len() ==> #[trigger] self.indexes@[j].data.elements().len()
                        <= u64::MAX,
            decreases self.table.indexes@.len() - k,
        {
            if self.table.indexes[k].name == name {
                let (key, _) = build_composite_key(&self.table.indexes[k].members, row);
                let key_bytes = fit_key_bytes(&key);
                proof {
                    assert(Self::index_ok(self.indexes@[k as int]));
                    assert(self.indexes@[k as int].data.elements().len() <= u64::MAX);
                    assert(self.table.indexes@[k as int].name@ == index_name@);
                }
                match self.indexes[k].binary_search(&key_bytes) {
                    Some((g, _, v)) => {
                        proof {
                            crate::index_data_unit::lemma_parsed_sizes(
                                self.indexes@[k as int].data.elements()[g as int],
                                INDEX_KEY_SIZE as int,
                                INDEX_VALUE_SIZE as int,
                            );
                        }
                        let pos = u64_from_le_bytes(v.as_slice());
                        proof {
                            vstd::bytes::lemma_auto_spec_u64_to_from_le_bytes();
                            let e = self.indexes@[k as int].data.elements()[g as int];
                            lemma_entry_is_framed(e, INDEX_KEY_SIZE as int, INDEX_VALUE_SIZE as int, key_bytes@, v@);
                            assert(self.indexes@[k as int].data.elements().contains(e));
                        }
                        return Some(pos);
                    },
                    None => {
                        proof {
                            assert forall|k2: int|
                                0 <= k2 < self.indexes@.len() && #[trigger] self.table.indexes@[k2].name@
                                    == index_name@ && k2 != k implies Self::named_earlier(
                                self.table,
                                index_name@,
                                k2,
                            ) by {
                                assert(self.table.indexes@[k as int].name@ == index_name@);
                            }
                        }
                        return None;
                    },
                }
            }
            k = k + 1;
        }
        None
    }

    /// The row at global index `pos` of the data map shard.
    pub fn get_row(&self, pos: usize) -> (r: Result<Vec<u8>, ShardErrors>)
        requires
            self.wf(),
        ensures
            r is Ok <==> pos < self.temps.target_shard.elements().len(),
            r matches Ok(b) ==> b@ == self.temps.target_shard.elements()[pos as int],
    {
        self.temps.target_shard.get_element(pos)
    }
}

/// An entry that parses to `(k, v)` is the framing of `k` and `v`.
proof fn lemma_entry_is_framed(e: Seq<u8>, ks: int, vs: int, k: Seq<u8>, v: Seq<u8>)
    requires
        crate::index_data_unit::parse_entry(e, ks, vs) == Some((k, v)),
    ensures
        e == entry_bytes(k, v),
{
    use_parse_unit_inverse(e);
    let d = e.subrange(8, e.len() as int);
    use_parse_unit_inverse(d.subrange(0, 8 + ks));
    use_parse_unit_inverse(d.subrange(8 + ks, d.len() as int));
    assert(d =~= d.subrange(0, 8 + ks) + d.subrange(8 + ks, d.len() as int));
}

/// A unit that parses is its payload behind the payload's length.
proof fn use_parse_unit_inverse(b: Seq<u8>)
    requires
        crate::index_data_unit::parse_unit(b) is Some,
    ensures
        b == crate::index_data_unit::unit_bytes(crate::index_data_unit::parse_unit(b)->0),
{
    vstd::bytes::lemma_auto_spec_u64_to_from_le_bytes();
    let x = b.subrange(8, b.len() as int);
    assert(b.subrange(0, 8).len() == 8);
    assert(spec_u64_to_le_bytes(spec_u64_from_le_bytes(b.subrange(0, 8))) == b.subrange(0, 8));
    assert(b =~= b.subrange(0, 8) + x);
}

} // verus!
