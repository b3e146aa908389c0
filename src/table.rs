use vstd::prelude::*;
use vstd::string::StringExecFns;

verus! {

/// Name of the column that holds each row's identifier.
pub open spec fn uid_name() -> Seq<char> {
    "_uid"@
}

/// Type of the values a column holds.
#[derive(Debug, Clone, Copy, PartialEq, Eq, Structural)]
pub enum DataTypes {
    String,
    Boolean,
    Number,
    Uuid,
}

/// How an index maps rows to keys.
#[derive(Debug, Clone, Copy, PartialEq, Eq, Structural)]
pub enum IndexType {
    Hash,
}

/// A column of a table.
#[derive(Debug)]
pub struct Column {
    pub name: String,
    pub data_type: DataTypes,
    pub required: bool,
    pub primary_key: bool,
    /// Whether the table gets an index on this column alone.
    pub default_index: Option<bool>,
}

impl Column {
    pub fn new(name: &str, data_type: DataTypes) -> (r: Self)
        ensures
            r.name@ == name@,
            r.data_type == data_type,
            !r.required,
            !r.primary_key,
            r.default_index is None,
    {
        Column {
            name: name.to_owned(),
            data_type,
            required: false,
            primary_key: false,
            default_index: None,
        }
    }

    pub fn set_required(self, required: bool) -> (r: Self)
        ensures
            r == (Column { required, ..self }),
    {
        Column { required, ..self }
    }

    pub fn set_primary_key(self, primary_key: bool) -> (r: Self)
        ensures
            r == (Column { primary_key, ..self }),
    {
        Column { primary_key, ..self }
    }

    pub fn set_default_index(self, default_index: bool) -> (r: Self)
        ensures
            r == (Column { default_index: Some(default_index), ..self }),
    {
        Column { default_index: Some(default_index), ..self }
    }

    /// A copy with the same fields.
    pub fn duplicate(&self) -> (r: Self)
        ensures
            r == *self,
    {
        Column {
            name: self.name.clone(),
            data_type: self.data_type,
            required: self.required,
            primary_key: self.primary_key,
            default_index: self.default_index,
        }
    }
}

/// An index over one or more columns.
#[derive(Debug)]
pub struct Index {
    pub name: String,
    pub members: Vec<String>,
    pub index_type: IndexType,
}

/// Bookkeeping that is not part of a table's schema.
#[derive(Debug)]
pub struct TableMetadata {
    pub internal: bool,
}

/// The schema of a table: its columns, unique by name, and its indexes.
#[derive(Debug)]
pub struct Table {
    pub name: String,
    pub columns: Vec<Column>,
    pub indexes: Vec<Index>,
    pub primary_key: String,
    pub metadata: TableMetadata,
}

impl Table {
    /// No two columns share a name.
    pub open spec fn wf(&self) -> bool {
        forall|i: int, j: int|
            0 <= i < j < self.columns@.len() ==> #[trigger] self.columns@[i].name@
                != #[trigger] self.columns@[j].name@
    }

    /// Position of the column called `name`, if any.
    pub open spec fn column_pos(&self, name: Seq<char>) -> Option<int> {
        if exists|i: int| 0 <= i < self.columns@.len() && #[trigger] self.columns@[i].name@ == name {
            Some(
                choose|i: int| 0 <= i < self.columns@.len() && #[trigger] self.columns@[i].name@ == name,
            )
        } else {
            None
        }
    }

    /// A table called `name` holding the identifier column, keyed by it and indexed on it.
    pub fn new(name: &str) -> (r: Self)
        ensures
            r.wf(),
            r.name@ == name@,
            r.columns@.len() == 1,
            Self::is_internal_uid(r.columns@[0]),
            r.primary_key@ == uid_name(),
            r.indexes@.len() == 1,
            Self::is_internal_uid_index(r.indexes@[0]),
            !r.metadata.internal,
    {
        let mut columns: Vec<Column> = Vec::new();
        columns.push(Self::get_internal_uid());
        let mut indexes: Vec<Index> = Vec::new();
        indexes.push(Self::get_internal_uid_index());
        Table {
            name: name.to_owned(),
            columns,
            metadata: TableMetadata { internal: false },
            primary_key: "_uid".to_owned(),
            indexes,
        }
    }

    /// `c` is the identifier column.
    pub open spec fn is_internal_uid(c: Column) -> bool {
        &&& c.name@ == uid_name()
        &&& c.data_type == DataTypes::Uuid
        &&& c.required
        &&& c.primary_key
        &&& c.default_index is None
    }

    /// `i` is the index that a column called `name` asks for: `<name>_indx` on that column.
    pub open spec fn is_default_index(i: Index, name: Seq<char>) -> bool {
        &&& i.name@ == name + "_indx"@
        &&& i.members@.len() == 1
        &&& i.members@[0]@ == name
        &&& i.index_type == IndexType::Hash
    }

    /// `i` is the index on the identifier column.
    pub open spec fn is_internal_uid_index(i: Index) -> bool {
        &&& i.name@ == "uidindx"@
        &&& i.members@.len() == 1
        &&& i.members@[0]@ == uid_name()
        &&& i.index_type == IndexType::Hash
    }

    /// The identifier column.
    pub fn get_internal_uid() -> (r: Column)
        ensures
            Self::is_internal_uid(r),
    {
        Column::new("_uid", DataTypes::Uuid).set_required(true).set_primary_key(true)
    }

    /// The index on the identifier column.
    pub fn get_internal_uid_index() -> (r: Index)
        ensures
            Self::is_internal_uid_index(r),
    {
        let mut members: Vec<String> = Vec::new();
        members.push("_uid".to_owned());
        Index { name: "uidindx".to_owned(), members, index_type: IndexType::Hash }
    }

    pub fn add_index(self, index: Index) -> (r: Self)
        ensures
            r == (Table { indexes: r.indexes, ..self }),
            r.indexes@ == self.indexes@.push(index),
    {
        let mut table = self;
        table.indexes.push(index);
        table
    }

    /// Adds `column`, replacing a column of the same name; a primary-key
    /// column becomes the table's primary key.
    pub fn add_column(self, column: Column) -> (r: Self)
        requires
            self.wf(),
        ensures
            r.wf(),
            r.name == self.name,
            r.indexes == self.indexes,
            r.metadata == self.metadata,
            r.primary_key@ == if column.primary_key {
                column.name@
            } else {
                self.primary_key@
            },
            match self.column_pos(column.name@) {
                Some(i) => r.columns@ == self.columns@.update(i, column),
                None => r.columns@ == self.columns@.push(column),
            },
    {
        let mut table = self;
        if column.primary_key {
            table.primary_key = column.name.clone();
        }
        table.put_column(column);
        table
    }

    /// Stores `column` in place of the column of the same name, or after the
    /// others; returns its position.
    fn put_column(&mut self, column: Column) -> (r: usize)
        requires
            old(self).wf(),
        ensures
            final(self).wf(),
            final(self).name == old(self).name,
            final(self).indexes == old(self).indexes,
            final(self).metadata == old(self).metadata,
            final(self).primary_key == old(self).primary_key,
            r < final(self).columns@.len(),
            final(self).columns@[r as int] == column,
            match old(self).column_pos(column.name@) {
                Some(i) => final(self).columns@ == old(self).columns@.update(i, column) && r == i,
                None => final(self).columns@ == old(self).columns@.push(column),
            },
    {
        let ghost old_cols = self.columns@;
        let ghost cname = column.name@;
        match self.find_column(&column.name) {
            Some(i) => {
                self.columns.set(i, column);
                proof {
                    assert forall|a: int, b: int|
                        0 <= a < b < self.columns@.len() implies #[trigger] self.columns@[a].name@
                        != #[trigger] self.columns@[b].name@ by {
                        assert(old_cols[a].name@ != old_cols[b].name@);
                    }
                }
                i
            },
            None => {
                self.columns.push(column);
                proof {
                    assert forall|a: int, b: int|
                        0 <= a < b < self.columns@.len() implies #[trigger] self.columns@[a].name@
                        != #[trigger] self.columns@[b].name@ by {
                        if b < old_cols.len() {
                            assert(old_cols[a].name@ != old_cols[b].name@);
                        } else {
                            assert(old_cols[a].name@ != cname);
                        }
                    }
                }
                self.columns.len() - 1
            },
        }
    }

    /// Position of the column called `name`.
    fn find_column(&self, name: &String) -> (r: Option<usize>)
        requires
            self.wf(),
        ensures
            r == match self.column_pos(name@) {
                Some(i) => Some(i as usize),
                None => None::<usize>,
            },
            r matches Some(i) ==> i < self.columns@.len() && self.columns@[i as int].name@ == name@,
            r is None ==> forall|j: int|
                0 <= j < self.columns@.len() ==> #[trigger] self.columns@[j].name@ != name@,
    {
        let mut i: usize = 0;
        while i < self.columns.len()
            invariant
                self.wf(),
                i <= self.columns@.len(),
                forall|j: int| 0 <= j < i ==> #[trigger] self.columns@[j].name@ != name@,
            decreases self.columns@.len() - i,
        {
            if self.columns[i].name == *name {
                proof {
                    assert(self.columns@[i as int].name@ == name@);
                    let k = self.column_pos(name@)->0;
                    assert(0 <= k < self.columns@.len() && self.columns@[k].name@ == name@);
                    if k < i {
                        assert(self.columns@[k].name@ != self.columns@[i as int].name@);
                    } else if k > i {
                        assert(self.columns@[i as int].name@ != self.columns@[k].name@);
                    }
                }
                return Some(i);
            }
            i = i + 1;
        }
        None
    }

    pub fn set_internal(self, internal: bool) -> (r: Self)
        ensures
            r == (Table { metadata: TableMetadata { internal }, ..self }),
    {
        let mut table = self;
        table.metadata.internal = internal;
        table
    }

    /// The column called `column_name`.
    pub fn get_column(&self, column_name: &str) -> (r: Option<&Column>)
        requires
            self.wf(),
        ensures
            match self.column_pos(column_name@) {
                Some(i) => r == Some(&self.columns@[i]),
                None => r is None,
            },
    {
        let name = column_name.to_owned();
        match self.find_column(&name) {
            Some(i) => Some(&self.columns[i]),
            None => None,
        }
    }

    /// The column names, in column order.
    pub fn list_columns(&self) -> (r: Vec<&String>)
        ensures
            r@.len() == self.columns@.len(),
            forall|i: int| 0 <= i < r@.len() ==> *#[trigger] r@[i] == self.columns@[i].name,
    {
        let mut out: Vec<&String> = Vec::new();
        let mut i: usize = 0;
        while i < self.columns.len()
            invariant
                i <= self.columns@.len(),
                out@.len() == i,
                forall|j: int| 0 <= j < i ==> *#[trigger] out@[j] == self.columns@[j].name,
            decreases self.columns@.len() - i,
        {
            out.push(&self.columns[i].name);
            i = i + 1;
        }
        out
    }

    /// Makes sure the identifier column is present, then adds an index named
    /// `<column>_indx` for each other column that asks for one, and the index
    /// on the identifier column.
    pub fn init(&mut self)
        requires
            old(self).wf(),
        ensures
            final(self).wf(),
            final(self).name == old(self).name,
            final(self).primary_key == old(self).primary_key,
            final(self).metadata == old(self).metadata,
            exists|i: int|
                0 <= i < final(self).columns@.len() && Self::is_internal_uid(
                    #[trigger] final(self).columns@[i],
                ),
            final(self).indexes@.len() > old(self).indexes@.len(),
            forall|i: int|
                0 <= i < old(self).indexes@.len() ==> #[trigger] final(self).indexes@[i]
                    == old(self).indexes@[i],
            Self::is_internal_uid_index(final(self).indexes@.last()),
            forall|i: int|
                0 <= i < old(self).columns@.len() && old(self).columns@[i].name@ != uid_name()
                    ==> #[trigger] final(self).columns@[i] == old(self).columns@[i],
            forall|i: int|
                0 <= i < final(self).columns@.len() && #[trigger] final(self).columns@[i].default_index
                    == Some(true) ==> exists|j: int|
                    0 <= j < final(self).indexes@.len() && Self::is_default_index(
                        #[trigger] final(self).indexes@[j],
                        final(self).columns@[i].name@,
                    ),
    {
        let uid = Self::get_internal_uid();
        let uid_pos = self.put_column(uid);
        let ghost base = self.indexes@;
        let ghost cols = self.columns@;
        proof {
            assert forall|i: int|
                0 <= i < old(self).columns@.len() && old(self).columns@[i].name@ != uid_name()
                    implies #[trigger] self.columns@[i] == old(self).columns@[i] by {
                if old(self).column_pos(uid_name()) is Some {
                    assert(old(self).columns@[old(self).column_pos(uid_name())->0].name@ == uid_name());
                }
            }
        }
        let mut i: usize = 0;
        while i < self.columns.len()
            invariant
                self.wf(),
                self.name == old(self).name,
                self.primary_key == old(self).primary_key,
                self.metadata == old(self).metadata,
                uid_pos < self.columns@.len(),
                Self::is_internal_uid(self.columns@[uid_pos as int]),
                i <= self.columns@.len(),
                base == old(self).indexes@,
                self.indexes@.len() >= base.len(),
                forall|k: int| 0 <= k < base.len() ==> #[trigger] self.indexes@[k] == base[k],
                cols == self.columns@,
                forall|c: int|
                    0 <= c < i && #[trigger] cols[c].default_index == Some(true) ==> exists|j: int|
                        0 <= j < self.indexes@.len() && Self::is_default_index(
                            #[trigger] self.indexes@[j],
                            cols[c].name@,
                        ),
            decreases self.columns@.len() - i,
        {
            let wants = match self.columns[i].default_index {
                Some(b) => b,
                None => false,
            };
            if i != uid_pos && wants {
                let mut name = self.columns[i].name.clone();
                name.append("_indx");
                let mut members: Vec<String> = Vec::new();
                members.push(self.columns[i].name.clone());
                let ghost before = self.indexes@;
                self.indexes.push(Index { name, members, index_type: IndexType::Hash });
                proof {
                    assert(Self::is_default_index(self.indexes@[before.len() as int], cols[i as int].name@));
                    assert forall|c: int|
                        0 <= c < i + 1 && #[trigger] cols[c].default_index == Some(true) implies exists|
                        j: int,
                    |
                        0 <= j < self.indexes@.len() && Self::is_default_index(
                            #[trigger] self.indexes@[j],
                            cols[c].name@,
                        ) by {
                        if c < i {
                            let j0 = choose|j: int|
                                0 <= j < before.len() && Self::is_default_index(
                                    #[trigger] before[j],
                                    cols[c].name@,
                                );
                            assert(self.indexes@[j0] == before[j0]);
                        } else {
                            assert(Self::is_default_index(self.indexes@[before.len() as int], cols[c].name@));
                        }
                    }
                }
            }
            i = i + 1;
        }
        let ghost before = self.indexes@;
        self.indexes.push(Self::get_internal_uid_index());
        proof {
            assert(Self::is_internal_uid(self.columns@[uid_pos as int]));
            assert forall|c: int|
                0 <= c < self.columns@.len() && #[trigger] self.columns@[c].default_index == Some(true)
                    implies exists|j: int|
                    0 <= j < self.indexes@.len() && Self::is_default_index(
                        #[trigger] self.indexes@[j],
                        self.columns@[c].name@,
                    ) by {
                assert(cols[c].default_index == Some(true));
                let j0 = choose|j: int|
                    0 <= j < before.len() && Self::is_default_index(#[trigger] before[j], cols[c].name@);
                assert(self.indexes@[j0] == before[j0]);
            }
        }
    }
}

} // verus!
