use crate::header::{fresh_uuid_bytes, offset_pos, DEFAULT_MAX_OFFSETS};
use crate::table::Table;
use crate::data_shard::row_views;
use crate::table_shard::{DatabaseConfig, TableShard};
use vstd::prelude::*;

verus! {

/// Why a row was not accepted.
#[derive(Debug, Clone, Copy, PartialEq, Eq, Structural)]
pub enum QueryError {
    /// The row has no value for the identifier column.
    UnknownUid,
    /// The row could not be serialized.
    InvalidSerialization,
    /// The table's storage did not take the row.
    InvalidInsertion,
}

/// The tables of one database, each with its storage.
#[derive(Debug)]
pub struct QueryShard {
    pub table_shards: Vec<TableShard>,
    pub scheme_name: String,
    pub scheme_uuid: String,
    /// Identifier bytes of this shard.
    pub uuid: Vec<u8>,
    pub config: DatabaseConfig,
}

impl QueryShard {
    /// Every table's storage is well formed and the capacities fit in memory.
    pub open spec fn wf(&self) -> bool {
        &&& forall|k: int| 0 <= k < self.table_shards@.len() ==> #[trigger] self.table_shards@[k].wf()
        &&& offset_pos(self.config.max_rows_per_shard as int) <= usize::MAX
        &&& offset_pos(self.config.max_records_per_hash_index_shard as int) <= usize::MAX
        &&& offset_pos(DEFAULT_MAX_OFFSETS as int) <= usize::MAX
    }

    /// A database without tables yet, with a fresh identifier.
    pub fn new(scheme_name: String, scheme_uuid: String, config: DatabaseConfig) -> (r: Self)
        requires
            offset_pos(config.max_rows_per_shard as int) <= usize::MAX,
            offset_pos(config.max_records_per_hash_index_shard as int) <= usize::MAX,
            offset_pos(DEFAULT_MAX_OFFSETS as int) <= usize::MAX,
        ensures
            r.wf(),
            r.table_shards@.len() == 0,
            r.scheme_name == scheme_name,
            r.scheme_uuid == scheme_uuid,
            r.uuid@.len() == 16,
            r.config == config,
    {
        QueryShard {
            table_shards: Vec::new(),
            scheme_name,
            scheme_uuid,
            uuid: fresh_uuid_bytes(),
            config,
        }
    }

    /// `k` is the first table storage called `name`.
    pub open spec fn first_table(&self, name: Seq<char>, k: int) -> bool {
        &&& 0 <= k < self.table_shards@.len()
        &&& self.table_shards@[k].table.name@ == name
        &&& forall|j: int| 0 <= j < k ==> #[trigger] self.table_shards@[j].table.name@ != name
    }

    /// The temp shard that the ring of `t` picks next has a free slot, and
    /// every temp file of `t` can grow by `n` bytes.
    pub open spec fn picked_has_room(t: TableShard, n: int) -> bool {
        &&& t.temps.temps@.len() > 0
        &&& t.temps.pending()[t.temps.next_slot()].len() < t.temps.temps@[t.temps.next_slot()].data.capacity()
        &&& forall|i: int|
            0 <= i < t.temps.temps@.len() ==> (#[trigger] t.temps.temps@[i]).data.image().len() + n
                <= usize::MAX
    }

    /// A row of `n` serialized bytes for `table` can be buffered: in the first
    /// storage of that table, or, for a table without storage yet, in a new one
    /// built from the configuration.
    pub open spec fn can_take(&self, table: Table, n: int) -> bool {
        &&& forall|k: int| #[trigger] self.first_table(table.name@, k) ==> Self::picked_has_room(
            self.table_shards@[k],
            n,
        )
        &&& (forall|k: int|
            0 <= k < self.table_shards@.len() ==> #[trigger] self.table_shards@[k].table.name@
                != table.name@) ==> {
            &&& self.config.max_rows_per_shard >= 1
            &&& table.indexes@.len() > 0 ==> self.config.max_records_per_hash_index_shard >= 1
            &&& self.config.max_temporary_shards >= 1
            &&& offset_pos(DEFAULT_MAX_OFFSETS as int) + n <= usize::MAX
        }
    }

    /// Position of the first storage of the table called `name`.
    fn find_table(&self, name: &String) -> (r: Option<usize>)
        ensures
            r matches Some(k) ==> self.first_table(name@, k as int),
            r is None ==> forall|k: int|
                0 <= k < self.table_shards@.len() ==> #[trigger] self.table_shards@[k].table.name@
                    != name@,
    {
        let mut k: usize = 0;
        while k < self.table_shards.len()
            invariant
                k <= self.table_shards@.len(),
                forall|j: int| 0 <= j < k ==> #[trigger] self.table_shards@[j].table.name@ != name@,
            decreases self.table_shards@.len() - k,
        {
            if self.table_shards[k].table.name == *name {
                return Some(k);
            }
            k = k + 1;
        }
        None
    }

    /// Whether the ring of `shard` can take a row of `n` bytes in the temp shard it picks next.
    fn can_buffer(shard: &TableShard, n: usize) -> (r: bool)
        requires
            shard.wf(),
        ensures
            r == Self::picked_has_room(*shard, n as int),
    {
        let len = shard.temps.temps.len();
        if len == 0 {
            return false;
        }
        let i = shard.temps.counter % len;
        proof {
            assert(shard.temps.temps@[i as int].wf());
        }
        if !shard.temps.temps[i].data.has_space() {
            return false;
        }
        let mut j: usize = 0;
        while j < len
            invariant
                len == shard.temps.temps@.len(),
                j <= len,
                forall|k: int|
                    0 <= k < j ==> (#[trigger] shard.temps.temps@[k]).data.image().len() + n
                        <= usize::MAX,
            decreases len - j,
        {
            if shard.temps.temps[j].data.file().len() > usize::MAX - n {
                return false;
            }
            j = j + 1;
        }
        true
    }

    /// Buffers the serialized form of a row of `table`, whose identifier column
    /// holds `uid`, in that table's temp ring; the table's storage is created on
    /// its first row. Fails with `UnknownUid` without an identifier, with
    /// `InvalidSerialization` without a serialized form, and with
    /// `InvalidInsertion` when the storage cannot take the row; a failure
    /// changes nothing.
    pub fn insert(&mut self, table: Table, uid: Option<String>, serialized: Option<Vec<u8>>) -> (r:
        Result<String, QueryError>)
        requires
            old(self).wf(),
            table.wf(),
        ensures
            final(self).wf(),
            (r == Err::<String, QueryError>(QueryError::UnknownUid)) <==> uid is None,
            uid is Some && serialized is None ==> r == Err::<String, QueryError>(
                QueryError::InvalidSerialization,
            ),
            r is Err ==> *final(self) == *old(self),
            uid is Some && serialized is Some && old(self).can_take(table, serialized->0@.len() as int)
                ==> r is Ok,
            r matches Ok(u) ==> {
                &&& uid matches Some(v) && u@ == v@
                &&& serialized is Some
                &&& exists|k: int, i: int|
                    #![trigger final(self).table_shards@[k].temps.pending()[i]]
                    0 <= k < final(self).table_shards@.len() && final(self).table_shards@[k].table.name@
                        == table.name@ && 0 <= i < final(self).table_shards@[k].temps.pending().len()
                        && final(self).table_shards@[k].temps.pending()[i].last() == serialized->0@
            },
            r matches Err(e) ==> e == QueryError::UnknownUid || e
                == QueryError::InvalidSerialization || e == QueryError::InvalidInsertion,
    {
        let uid = match uid {
            Some(u) => u,
            None => {
                return Err(QueryError::UnknownUid);
            },
        };
        let serialized_value = match serialized {
            Some(v) => v,
            None => {
                return Err(QueryError::InvalidSerialization);
            },
        };
        let ghost row = serialized_value@;
        let ghost n = row.len() as int;
        let ghost name = table.name@;
        match self.find_table(&table.name) {
            Some(k) => {
                proof {
                    assert(self.table_shards@[k as int].wf());
                }
                if !Self::can_buffer(&self.table_shards[k], serialized_value.len()) {
                    return Err(QueryError::InvalidInsertion);
                }
                let ghost v0 = self.table_shards@;
                let mut shard = self.table_shards.remove(k);
                let ghost before = shard;
                let res = shard.insert_row(serialized_value);
                let ghost after = shard;
                self.table_shards.insert(k, shard);
                proof {
                    assert(self.table_shards@ =~= v0.update(k as int, after));
                    assert forall|j: int| 0 <= j < self.table_shards@.len() implies #[trigger] self.table_shards@[j].wf() by {
                        if j != k {
                            assert(v0[j].wf());
                        }
                    }
                    let i = before.temps.next_slot();
                    assert(res is Ok);
                    assert(after.temps.pending()[i] == before.temps.pending()[i].push(row));
                    assert(self.table_shards@[k as int].temps.pending()[i].last() == row);
                }
                match res {
                    Ok(_) => Ok(uid),
                    Err(_) => Err(QueryError::InvalidInsertion),
                }
            },
            None => {
                match TableShard::new(table, &self.scheme_name, &self.config, Vec::new(), Vec::new()) {
                    Ok(shard) => {
                        let mut shard = shard;
                        if !Self::can_buffer(&shard, serialized_value.len()) {
                            return Err(QueryError::InvalidInsertion);
                        }
                        let ghost before = shard;
                        let res = shard.insert_row(serialized_value);
                        match res {
                            Ok(_) => {
                                let ghost v0 = self.table_shards@;
                                self.table_shards.push(shard);
                                proof {
                                    let k = v0.len() as int;
                                    assert forall|j: int| 0 <= j < self.table_shards@.len() implies #[trigger] self.table_shards@[j].wf() by {
                                        if j < k {
                                            assert(v0[j].wf());
                                        }
                                    }
                                    let i = before.temps.next_slot();
                                    assert(self.table_shards@[k].temps.pending()[i] == before.temps.pending()[i].push(row));
                                    assert(self.table_shards@[k].temps.pending()[i].last() == row);
                                }
                                Ok(uid)
                            },
                            Err(_) => Err(QueryError::InvalidInsertion),
                        }
                    },
                    Err(_) => {
                        proof {
                            assert(TableShard::images_ok(row_views(Seq::<Vec<u8>>::empty())));
                            assert forall|k: int| 0 <= k < table.indexes@.len() implies TableShard::images_ok(
                                #[trigger] TableShard::index_images_at(Seq::<Vec<Vec<u8>>>::empty(), k),
                            ) by {}
                        }
                        Err(QueryError::InvalidInsertion)
                    },
                }
            },
        }
    }
}

} // verus!
