//! Rows in memory.

use crate::bucket_reader;
use crate::error::Error;
use crate::types::{DataType, Field};
use crate::values;
use crate::values::{Cell, CellView};
use vstd::prelude::*;

verus! {

/// Some rows, column by column. There may be rows without any column.
#[derive(Debug, Clone, PartialEq, Eq)]
pub struct RecordBatch {
    pub fields: Vec<Field>,
    pub columns: Vec<Vec<Cell>>,
    pub num_rows: usize,
}

impl RecordBatch {
    /// The cells of the columns.
    pub open spec fn cells(&self) -> Seq<Seq<CellView>> {
        bucket_reader::column_views(self.columns@)
    }

    /// The types that the columns are declared with.
    pub open spec fn types(&self) -> Seq<DataType> {
        Seq::new(self.fields@.len(), |i: int| self.fields@[i].data_type)
    }

    /// Each column has a field and as many cells as there are rows, all of them short
    /// enough to be stored.
    pub open spec fn well_formed(&self) -> bool {
        &&& self.fields@.len() == self.columns@.len()
        &&& forall|i: int|
            0 <= i < self.columns@.len() ==> (#[trigger] self.columns@[i])@.len()
                == self.num_rows
        &&& forall|i: int, j: int|
            0 <= i < self.columns@.len() && 0 <= j < self.columns@[i]@.len() ==> values::cell_fits(
                #[trigger] self.columns@[i]@[j]@,
            )
    }

    /// The batch of some columns. Each of them has a field, no null unless it is
    /// nullable, and as many cells as there are rows.
    pub fn try_new(fields: Vec<Field>, columns: Vec<Vec<Cell>>, num_rows: usize) -> (r: Result<
        RecordBatch,
        Error,
    >)
        ensures
            match new_error(fields@, bucket_reader::column_views(columns@), num_rows as nat) {
                Some(e) => r == Err::<RecordBatch, Error>(e),
                None => r == Ok::<RecordBatch, Error>(RecordBatch { fields, columns, num_rows }),
            },
    {
        if fields.len() != columns.len() {
            return Err(Error::BatchColumns);
        }
        let ghost cols = bucket_reader::column_views(columns@);
        let mut i: usize = 0;
        while i < columns.len()
            invariant
                i <= columns@.len(),
                fields@.len() == columns@.len(),
                cols == bucket_reader::column_views(columns@),
                forall|j: int|
                    0 <= j < i && !(#[trigger] nullabilities(fields@)[j]) ==> !has_null(cols[j]),
            decreases columns@.len() - i,
        {
            assert(cols[i as int] == values::cells(columns@[i as int]@));
            if !fields[i].nullable && contains_null(&columns[i]) {
                assert(!nullabilities(fields@)[i as int]);
                return Err(Error::BatchNonNullable);
            }
            i = i + 1;
        }
        let mut k: usize = 0;
        while k < columns.len()
            invariant
                k <= columns@.len(),
                fields@.len() == columns@.len(),
                cols == bucket_reader::column_views(columns@),
                !misplaced_null(nullabilities(fields@), cols),
                forall|j: int| 0 <= j < k ==> (#[trigger] cols[j]).len() == num_rows,
            decreases columns@.len() - k,
        {
            assert(cols[k as int] == values::cells(columns@[k as int]@));
            if columns[k].len() != num_rows {
                assert(cols[k as int].len() != num_rows);
                return Err(Error::BatchLengths);
            }
            k = k + 1;
        }
        Ok(RecordBatch { fields, columns, num_rows })
    }
}

/// Why columns make no batch, if they do not.
pub open spec fn new_error(
    fields: Seq<Field>,
    cols: Seq<Seq<CellView>>,
    num_rows: nat,
) -> Option<Error> {
    if fields.len() != cols.len() {
        Some(Error::BatchColumns)
    } else if misplaced_null(nullabilities(fields), cols) {
        Some(Error::BatchNonNullable)
    } else if exists|i: int| 0 <= i < cols.len() && (#[trigger] cols[i]).len() != num_rows {
        Some(Error::BatchLengths)
    } else {
        None
    }
}

/// Which of the fields are nullable.
pub open spec fn nullabilities(fields: Seq<Field>) -> Seq<bool> {
    Seq::new(fields.len(), |i: int| fields[i].nullable)
}

/// Whether a column has a null.
pub open spec fn has_null(rows: Seq<CellView>) -> bool {
    exists|i: int| 0 <= i < rows.len() && #[trigger] rows[i] == CellView::Null
}

/// Whether a column that is not nullable has a null.
pub open spec fn misplaced_null(nullable: Seq<bool>, cols: Seq<Seq<CellView>>) -> bool {
    exists|i: int|
        0 <= i < nullable.len() && 0 <= i < cols.len() && !(#[trigger] nullable[i]) && has_null(
            cols[i],
        )
}

/// Whether a column has a null.
pub fn contains_null(column: &Vec<Cell>) -> (r: bool)
    ensures
        r == has_null(values::cells(column@)),
{
    let ghost rows = values::cells(column@);
    let mut i: usize = 0;
    while i < column.len()
        invariant
            i <= column@.len(),
            rows == values::cells(column@),
            forall|j: int| 0 <= j < i ==> #[trigger] rows[j] != CellView::Null,
        decreases column@.len() - i,
    {
        if let Cell::Null = column[i] {
            assert(rows[i as int] == CellView::Null);
            return true;
        }
        i = i + 1;
    }
    false
}

} // verus!
