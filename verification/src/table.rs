//! The in-memory columnar table: an ordered mapping from unique column names
//! to typed column data, with all columns of equal length.

use crate::error::{DbError, ErrorKind};
use vstd::prelude::*;

verus! {

/// Column data types supported by the format.
#[derive(Clone, Copy, Debug, PartialEq, Eq, Structural)]
pub enum ColumnType {
    Int64,
    Varchar,
}

/// In-memory column data.
#[derive(Clone, Debug)]
pub enum ColumnData {
    Int64(Vec<i64>),
    Varchar(Vec<String>),
}

/// The mathematical content of a column.
pub enum ColumnDataV {
    Int64(Seq<i64>),
    Varchar(Seq<Seq<char>>),
}

/// The view of a column: its values as mathematical sequences.
pub open spec fn col_view(c: ColumnData) -> ColumnDataV {
    match c {
        ColumnData::Int64(v) => ColumnDataV::Int64(v@),
        ColumnData::Varchar(v) => ColumnDataV::Varchar(crate::compression::strs_view(v@)),
    }
}

pub open spec fn col_len(c: ColumnData) -> nat {
    match c {
        ColumnData::Int64(v) => v@.len(),
        ColumnData::Varchar(v) => v@.len(),
    }
}

pub open spec fn col_type(c: ColumnData) -> ColumnType {
    match c {
        ColumnData::Int64(_) => ColumnType::Int64,
        ColumnData::Varchar(_) => ColumnType::Varchar,
    }
}

impl ColumnData {
    /// The number of rows in this column.
    pub fn len(&self) -> (r: usize)
        ensures
            r == col_len(*self),
    {
        match self {
            ColumnData::Int64(data) => data.len(),
            ColumnData::Varchar(data) => data.len(),
        }
    }

    pub fn is_empty(&self) -> (r: bool)
        ensures
            r == (col_len(*self) == 0),
    {
        match self {
            ColumnData::Int64(data) => data.len() == 0,
            ColumnData::Varchar(data) => data.len() == 0,
        }
    }

    pub fn column_type(&self) -> (r: ColumnType)
        ensures
            r == col_type(*self),
    {
        match self {
            ColumnData::Int64(_) => ColumnType::Int64,
            ColumnData::Varchar(_) => ColumnType::Varchar,
        }
    }
}

/// Find the data of the first column with the given name.
pub open spec fn spec_find_col(cols: Seq<(String, ColumnData)>, name: Seq<char>) -> Option<
    ColumnData,
>
    decreases cols.len(),
{
    if cols.len() == 0 {
        None
    } else if cols[0].0@ == name {
        Some(cols[0].1)
    } else {
        spec_find_col(cols.drop_first(), name)
    }
}

pub open spec fn spec_has_col(cols: Seq<(String, ColumnData)>, name: Seq<char>) -> bool {
    spec_find_col(cols, name) is Some
}

/// The main table structure: columns in insertion order.
#[derive(Debug)]
pub struct Table {
    pub columns: Vec<(String, ColumnData)>,
    pub row_count: usize,
}

impl Table {
    /// The view of a table: column names and contents, in insertion order.
    pub open spec fn view_columns(self) -> Seq<(Seq<char>, ColumnDataV)> {
        self.columns@.map_values(|p: (String, ColumnData)| (p.0@, col_view(p.1)))
    }

    /// Every column has exactly `row_count` rows, names are unique, and a
    /// table without columns has no rows.
    pub open spec fn well_formed(self) -> bool {
        &&& forall|i: int| 0 <= i < self.columns@.len() ==> col_len(
            #[trigger] self.columns@[i].1,
        ) == self.row_count
        &&& forall|i: int, j: int|
            0 <= i < j < self.columns@.len() ==> (#[trigger] self.columns@[i].0@)
                != (#[trigger] self.columns@[j].0@)
        &&& (self.columns@.len() == 0 ==> self.row_count == 0)
    }

    /// An empty table with no rows.
    pub fn new() -> (r: Table)
        ensures
            r.well_formed(),
            r.columns@.len() == 0,
            r.row_count == 0,
    {
        Table { columns: Vec::new(), row_count: 0 }
    }

    fn find_index(&self, name: &String) -> (r: Option<usize>)
        ensures
            match r {
                Some(i) => i < self.columns@.len() && self.columns@[i as int].0@ == name@
                    && spec_find_col(self.columns@, name@) == Some(self.columns@[i as int].1),
                None => !spec_has_col(self.columns@, name@),
            },
    {
        let mut i: usize = 0;
        proof {
            assert(self.columns@.skip(0) =~= self.columns@);
        }
        while i < self.columns.len()
            invariant
                i <= self.columns@.len(),
                spec_find_col(self.columns@, name@) == spec_find_col(
                    self.columns@.skip(i as int),
                    name@,
                ),
            decreases self.columns@.len() - i,
        {
            let ghost pre = self.columns@.skip(i as int);
            proof {
                assert(pre[0] == self.columns@[i as int]);
                assert(pre.drop_first() =~= self.columns@.skip(i + 1));
            }
            if self.columns[i].0.eq(name) {
                return Some(i);
            }
            i = i + 1;
        }
        proof {
            assert(self.columns@.skip(self.columns@.len() as int) =~= Seq::<(
                String,
                ColumnData,
            )>::empty());
        }
        None
    }

    /// Add a column.  The first added column fixes the row count; afterwards
    /// a column whose length differs from it, or whose name is already
    /// present, is rejected with a schema mismatch.
    pub fn add_column(&mut self, name: String, data: ColumnData) -> (r: Result<(), DbError>)
        requires
            old(self).well_formed(),
        ensures
            final(self).well_formed(),
            r is Ok <==> ((old(self).columns@.len() == 0 || col_len(data) == old(
                self,
            ).row_count) && !spec_has_col(old(self).columns@, name@)),
            r is Ok ==> final(self).columns@ == old(self).columns@.push((name, data))
                && final(self).row_count == col_len(data),
            r is Err ==> *final(self) == *old(self) && (r matches Err(e) && e.kind
                == ErrorKind::SchemaMismatch),
    {
        proof {
            if old(self).columns@.len() > 0 {
                assert(col_len(old(self).columns@[0].1) == old(self).row_count);
            }
        }
        if self.columns.len() != 0 && data.len() != self.row_count {
            return Err(DbError::of(ErrorKind::SchemaMismatch, "column length mismatch"));
        }
        if self.find_index(&name).is_some() {
            return Err(DbError::of(ErrorKind::SchemaMismatch, "duplicate column name"));
        }
        if self.columns.len() == 0 {
            self.row_count = data.len();
        }
        let ghost pre = self.columns@;
        self.columns.push((name, data));
        proof {
            assert forall|i: int, j: int| 0 <= i < j < self.columns@.len() implies (
            #[trigger] self.columns@[i].0@) != (#[trigger] self.columns@[j].0@) by {
                if j == self.columns@.len() - 1 {
                    lemma_find_col_present(pre, i);
                }
            }
        }
        Ok(())
    }

    /// Look up a column by name.
    pub fn get_column(&self, name: &str) -> (r: Option<&ColumnData>)
        ensures
            match r {
                Some(c) => spec_find_col(self.columns@, name@) == Some(*c),
                None => !spec_has_col(self.columns@, name@),
            },
    {
        let key: String = name.to_owned();
        match self.find_index(&key) {
            Some(i) => Some(&self.columns[i].1),
            None => None,
        }
    }
}

/// If a name occurs at index `i`, the search finds some column of that name.
pub proof fn lemma_find_col_present(cols: Seq<(String, ColumnData)>, i: int)
    requires
        0 <= i < cols.len(),
    ensures
        spec_has_col(cols, cols[i].0@),
    decreases cols.len(),
{
    if i > 0 && cols[0].0@ != cols[i].0@ {
        assert(cols.drop_first()[i - 1] == cols[i]);
        lemma_find_col_present(cols.drop_first(), i - 1);
    }
}

} // verus!

verus! {

/// If a name occurs among the columns, some index holds it.
pub proof fn lemma_has_col_index(cols: Seq<(String, ColumnData)>, name: Seq<char>)
    requires
        spec_has_col(cols, name),
    ensures
        exists|k: int| 0 <= k < cols.len() && (#[trigger] cols[k].0@) == name,
    decreases cols.len(),
{
    if cols[0].0@ == name {
        assert(cols[0].0@ == name);
    } else {
        lemma_has_col_index(cols.drop_first(), name);
        let k = choose|k: int| 0 <= k < cols.drop_first().len() && (#[trigger] cols.drop_first()[
            k
        ].0@) == name;
        assert(cols[k + 1] == cols.drop_first()[k]);
        assert(cols[k + 1].0@ == name);
    }
}

} // verus!
