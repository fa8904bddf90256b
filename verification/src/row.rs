//! Rows and slices of rows.
//!
//! A [`Row`] gives the names of its columns and the values of its cells.
//! A [`DataRow`] is a row that owns them. A [`RowSlice`] is a contiguous run
//! of the columns of a row; it borrows the row and copies nothing.

use crate::extract::{format_columns, formatted, Error, ErrorView};
use crate::sealed::Sealed;
use crate::search::first_index;
use crate::text::{decimal, push_decimal};
use crate::value::{Value, ValueView};
use std::ops::Range;
use vstd::prelude::*;
use vstd::slice::slice_subrange;

verus! {

/// `c` with an ASCII capital replaced by its small letter.
pub open spec fn ascii_lower(c: char) -> char {
    if 'A' <= c <= 'Z' {
        ((c as u8) + 32) as char
    } else {
        c
    }
}

/// Whether `a` and `b` are the same but for the case of their ASCII letters.
pub open spec fn eq_ignore_ascii_case(a: Seq<char>, b: Seq<char>) -> bool {
    &&& a.len() == b.len()
    &&& forall|i: int| 0 <= i < a.len() ==> ascii_lower(a[i]) == ascii_lower(b[i])
}

/// The least index `i >= from` at which `columns[i]` is `name` but for the
/// case of ASCII letters, if there is one.
pub open spec fn first_ignoring_case(columns: Seq<Seq<char>>, name: Seq<char>, from: int) -> Option<
    int,
>
    decreases columns.len() - from,
{
    if from < 0 || from >= columns.len() {
        None
    } else if eq_ignore_ascii_case(columns[from], name) {
        Some(from)
    } else {
        first_ignoring_case(columns, name, from + 1)
    }
}

/// The column that `name` stands for: the first column called `name`; where
/// there is none, the first column called `name` but for the case of ASCII
/// letters.
pub open spec fn column_named(columns: Seq<Seq<char>>, name: Seq<char>) -> Option<int> {
    match first_index(columns, name) {
        Some(i) => Some(i),
        None => first_ignoring_case(columns, name, 0),
    }
}

/// The index of the column that `name` stands for, as
/// `tokio_postgres::row::RowIndex::__idx` finds it for a `str`: the position
/// of the first column whose name equals `name`, and without such a column
/// the position of the first whose name equals it by
/// `str::eq_ignore_ascii_case`.
#[verifier::external_body]
fn column_index(name: &str, columns: &[String]) -> (found: Option<usize>)
    ensures
        match found {
            Some(i) => column_named(columns.deep_view(), name@) == Some(i as int),
            None => column_named(columns.deep_view(), name@) is None,
        },
{
    tokio_postgres::row::RowIndex::__idx(name, columns)
}

/// `n` in decimal notation.
pub fn index_text(n: usize) -> (text: String)
    ensures
        text@ == decimal(n as nat),
{
    let mut text = String::new();
    push_decimal(&mut text, n);
    assert(Seq::<char>::empty() + decimal(n as nat) =~= decimal(n as nat));
    text
}

/// Anything that provides a row-like interface.
///
/// This trait is sealed and cannot be implemented for types outside of this crate.
pub trait Row: Sealed + Sized {
    /// The names of the columns, in order.
    spec fn names(&self) -> Seq<Seq<char>>;

    /// The values of the cells, in order.
    spec fn values(&self) -> Seq<ValueView>;

    /// Return the name of each column. A row has as many cells as columns.
    fn columns(&self) -> (columns: &[String])
        ensures
            columns.deep_view() == self.names(),
            self.names().len() == self.values().len(),
    ;

    /// Attempt to get a cell in the row by the column index.
    ///
    /// # Errors
    ///
    /// `SliceLookup` where the row has no column `index`.
    fn try_get(&self, index: usize) -> (result: Result<&Value, Error>)
        ensures
            match result {
                Ok(value) => index < self.values().len() && value@ == self.values()[index as int],
                Err(e) => index >= self.values().len() && e@ == (ErrorView::SliceLookup {
                    index: decimal(index as nat),
                    columns: formatted(self.names()),
                }),
            },
    ;

    /// The number of values (columns) in the row.
    fn len(&self) -> (len: usize)
        ensures
            len == self.names().len(),
            len == self.values().len(),
    {
        self.columns().len()
    }

    /// `true` if the value did not contain any values, `false` otherwise.
    fn is_empty(&self) -> (empty: bool)
        ensures
            empty == (self.names().len() == 0),
    {
        self.len() == 0
    }

    /// The cell at `index`.
    fn get(&self, index: usize) -> (value: &Value)
        requires
            index < self.values().len(),
        ensures
            value@ == self.values()[index as int],
    {
        match self.try_get(index) {
            Ok(value) => value,
            Err(_) => vstd::pervasive::unreached(),
        }
    }

    /// The position in the row of the column that `name` stands for; see
    /// [`column_named`].
    fn position(&self, name: &str) -> (found: Option<usize>)
        ensures
            match found {
                Some(i) => column_named(self.names(), name@) == Some(i as int) && i
                    < self.values().len(),
                None => column_named(self.names(), name@) is None,
            },
    {
        let found = column_index(name, self.columns());
        proof {
            lemma_column_named(self.names(), name@);
        }
        found
    }

    /// Attempt to get a cell in the row by the column name.
    ///
    /// # Errors
    ///
    /// `SliceLookup` where no column of the row answers to `name`.
    fn try_get_named(&self, name: &str) -> (result: Result<&Value, Error>)
        ensures
            match column_named(self.names(), name@) {
                Some(i) => result matches Ok(value) && 0 <= i < self.values().len() && value@
                    == self.values()[i],
                None => result matches Err(e) && e@ == (ErrorView::SliceLookup {
                    index: name@,
                    columns: formatted(self.names()),
                }),
            },
    {
        match self.position(name) {
            Some(index) => self.try_get(index),
            None => Err(
                Error::SliceLookup {
                    index: name.to_owned(),
                    columns: format_columns(self.columns()),
                },
            ),
        }
    }
}

/// A row of a result: the names of its columns and the values of its cells.
#[derive(Debug, PartialEq, Eq)]
pub struct DataRow {
    columns: Vec<String>,
    cells: Vec<Value>,
}

/// A contiguous subset of columns in a row.
#[derive(Debug)]
pub struct RowSlice<'a, R> where R: Row {
    row: &'a R,
    range: Range<usize>,
}

impl DataRow {
    #[verifier::type_invariant]
    spec fn well_formed(self) -> bool {
        self.columns.len() == self.cells.len()
    }

    /// The row with the given columns and cells.
    ///
    /// # Errors
    ///
    /// `ColumnCount` where there are not as many cells as columns.
    pub fn new(columns: Vec<String>, cells: Vec<Value>) -> (result: Result<DataRow, Error>)
        ensures
            match result {
                Ok(row) => {
                    &&& columns.len() == cells.len()
                    &&& row.names() == columns.deep_view()
                    &&& row.values() == cells.deep_view()
                },
                Err(e) => {
                    &&& columns.len() != cells.len()
                    &&& e@ == (ErrorView::ColumnCount {
                        found: cells.len() as int,
                        expected: columns.len() as int,
                    })
                },
            },
    {
        if columns.len() != cells.len() {
            Err(Error::ColumnCount { found: cells.len(), expected: columns.len() })
        } else {
            Ok(DataRow { columns, cells })
        }
    }
}

impl Sealed for DataRow {

}

impl Row for DataRow {
    closed spec fn names(&self) -> Seq<Seq<char>> {
        self.columns.deep_view()
    }

    closed spec fn values(&self) -> Seq<ValueView> {
        self.cells.deep_view()
    }

    fn columns(&self) -> (columns: &[String]) {
        proof {
            use_type_invariant(self);
        }
        self.columns.as_slice()
    }

    fn try_get(&self, index: usize) -> (result: Result<&Value, Error>) {
        proof {
            use_type_invariant(self);
        }
        if index < self.cells.len() {
            Ok(&self.cells[index])
        } else {
            Err(
                Error::SliceLookup {
                    index: index_text(index),
                    columns: format_columns(self.columns.as_slice()),
                },
            )
        }
    }
}

impl<'a, R: Row> RowSlice<'a, R> {
    #[verifier::type_invariant]
    spec fn well_formed(self) -> bool {
        &&& self.range.start <= self.range.end <= self.row.names().len()
        &&& self.row.names().len() == self.row.values().len()
    }

    /// Return a subslice of this slice's columns. The bounds of `range`
    /// count from the start of this slice.
    ///
    /// This is an optimized version of `Row::slice` which reduces the
    /// number of pointer-indirections: the result borrows the row itself.
    ///
    /// # Errors
    ///
    /// `SliceIndex` where `range` ends beyond the slice or before it begins.
    pub fn slice(&self, range: Range<usize>) -> (result: Result<RowSlice<'a, R>, Error>)
        ensures
            match result {
                Ok(slice) => {
                    &&& range.start <= range.end <= self.names().len()
                    &&& slice.names() == self.names().subrange(
                        range.start as int,
                        range.end as int,
                    )
                    &&& slice.values() == self.values().subrange(
                        range.start as int,
                        range.end as int,
                    )
                },
                Err(e) => {
                    &&& !(range.start <= range.end <= self.names().len())
                    &&& e@ == (ErrorView::SliceIndex {
                        start: range.start as int,
                        end: range.end as int,
                        len: self.names().len() as int,
                    })
                },
            },
    {
        proof {
            use_type_invariant(self);
        }
        let len = self.range.end - self.range.start;
        if range.end > len || range.start > range.end {
            Err(Error::SliceIndex { range, len })
        } else {
            let start = self.range.start;
            let slice = RowSlice { row: self.row, range: (start + range.start)..(start + range.end) };
            proof {
                assert(slice.names() =~= self.names().subrange(
                    range.start as int,
                    range.end as int,
                ));
                assert(slice.values() =~= self.values().subrange(
                    range.start as int,
                    range.end as int,
                ));
            }
            Ok(slice)
        }
    }
}

impl<R: Row> Sealed for RowSlice<'_, R> {

}

impl<'a, R: Row> Row for RowSlice<'a, R> {
    closed spec fn names(&self) -> Seq<Seq<char>> {
        self.row.names().subrange(self.range.start as int, self.range.end as int)
    }

    closed spec fn values(&self) -> Seq<ValueView> {
        self.row.values().subrange(self.range.start as int, self.range.end as int)
    }

    fn columns(&self) -> (columns: &[String]) {
        proof {
            use_type_invariant(self);
        }
        let columns = slice_subrange(self.row.columns(), self.range.start, self.range.end);
        assert(columns.deep_view() =~= self.names());
        columns
    }

    fn try_get(&self, index: usize) -> (result: Result<&Value, Error>) {
        proof {
            use_type_invariant(self);
        }
        if index < self.range.end - self.range.start {
            self.row.try_get(self.range.start + index)
        } else {
            Err(
                Error::SliceLookup {
                    index: index_text(index),
                    columns: format_columns(self.columns()),
                },
            )
        }
    }
}

/// The whole of `row` as a slice.
pub fn whole<R: Row>(row: &R) -> (slice: RowSlice<'_, R>)
    ensures
        slice.names() == row.names(),
        slice.values() == row.values(),
{
    let slice = RowSlice { row, range: 0..row.len() };
    proof {
        assert(slice.names() =~= row.names());
        assert(slice.values() =~= row.values());
    }
    slice
}

/// Return a subslice of the columns of `row`.
///
/// # Errors
///
/// `SliceIndex` where `range` ends beyond the row or before it begins.
pub fn slice<R: Row>(row: &R, range: Range<usize>) -> (result: Result<RowSlice<'_, R>, Error>)
    ensures
        match result {
            Ok(slice) => {
                &&& range.start <= range.end <= row.names().len()
                &&& slice.names() == row.names().subrange(range.start as int, range.end as int)
                &&& slice.values() == row.values().subrange(range.start as int, range.end as int)
            },
            Err(e) => {
                &&& !(range.start <= range.end <= row.names().len())
                &&& e@ == (ErrorView::SliceIndex {
                    start: range.start as int,
                    end: range.end as int,
                    len: row.names().len() as int,
                })
            },
        },
{
    let len = row.len();
    if range.end > len || range.start > range.end {
        Err(Error::SliceIndex { range, len })
    } else {
        Ok(RowSlice { row, range })
    }
}

impl DataRow {
    /// The whole row as a slice.
    pub fn as_slice(&self) -> (slice: RowSlice<'_, DataRow>)
        ensures
            slice.names() == self.names(),
            slice.values() == self.values(),
    {
        whole(self)
    }

    /// Return a subslice of this row's columns.
    ///
    /// # Errors
    ///
    /// `SliceIndex` where `range` ends beyond the row or before it begins.
    pub fn slice(&self, range: Range<usize>) -> (result: Result<RowSlice<'_, DataRow>, Error>)
        ensures
            match result {
                Ok(slice) => {
                    &&& range.start <= range.end <= self.names().len()
                    &&& slice.names() == self.names().subrange(
                        range.start as int,
                        range.end as int,
                    )
                    &&& slice.values() == self.values().subrange(
                        range.start as int,
                        range.end as int,
                    )
                },
                Err(e) => {
                    &&& !(range.start <= range.end <= self.names().len())
                    &&& e@ == (ErrorView::SliceIndex {
                        start: range.start as int,
                        end: range.end as int,
                        len: self.names().len() as int,
                    })
                },
            },
    {
        slice(self, range)
    }
}

/// What [`first_ignoring_case`] finds is an index of `columns`.
pub proof fn lemma_first_ignoring_case(columns: Seq<Seq<char>>, name: Seq<char>, from: int)
    requires
        0 <= from,
    ensures
        match first_ignoring_case(columns, name, from) {
            Some(i) => from <= i < columns.len() && eq_ignore_ascii_case(columns[i], name),
            None => true,
        },
    decreases columns.len() - from,
{
    if from < columns.len() && !eq_ignore_ascii_case(columns[from], name) {
        lemma_first_ignoring_case(columns, name, from + 1);
    }
}

/// The column that a name stands for is a column of the row, and its name
/// is the given one but for the case of ASCII letters.
pub proof fn lemma_column_named(columns: Seq<Seq<char>>, name: Seq<char>)
    ensures
        match column_named(columns, name) {
            Some(i) => 0 <= i < columns.len() && eq_ignore_ascii_case(columns[i], name),
            None => true,
        },
{
    crate::search::lemma_first_index_from(columns, name, 0);
    lemma_first_ignoring_case(columns, name, 0);
}

} // verus!
