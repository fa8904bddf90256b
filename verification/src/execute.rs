//! What is asked of the rows that a query returns.

use crate::extract;
use crate::from_sql_row::{extracted, extracted_multi, Extractor};
use crate::record::{record_views, Record};
use crate::row::Row;
use vstd::prelude::*;

verus! {

/// An error that may arise from the rows that a query returns.
#[derive(Debug, PartialEq, Eq)]
pub enum Error {
    /// Expected 1 row, found 0.
    NoRows,
    /// Expected 1 row, found more than 1.
    TooManyRows,
    /// A value could not be extracted from a row.
    Extract(extract::Error),
}

impl From<extract::Error> for Error {
    fn from(error: extract::Error) -> (wrapped: Error) {
        Error::Extract(error)
    }
}

impl vstd::std_specs::convert::FromSpecImpl<extract::Error> for Error {
    open spec fn obeys_from_spec() -> bool {
        true
    }

    open spec fn from_spec(error: extract::Error) -> Error {
        Error::Extract(error)
    }
}

/// The one row of a result, given its first row and whether a second
/// follows it.
///
/// # Errors
///
/// `NoRows` where there is no first row, `TooManyRows` where a second
/// row follows the first.
pub fn exactly_one<T>(first: Option<T>, more: bool) -> (result: Result<T, Error>)
    ensures
        match first {
            None => result matches Err(Error::NoRows),
            Some(row) => if more {
                result matches Err(Error::TooManyRows)
            } else {
                result == Ok::<T, Error>(row)
            },
        },
{
    match first {
        None => Err(Error::NoRows),
        Some(row) => if more {
            Err(Error::TooManyRows)
        } else {
            Ok(row)
        },
    }
}

impl Error {
    /// The error in words.
    pub fn message(&self) -> (message: String)
        ensures
            message@ == match self {
                Error::NoRows => "expected 1 row, found 0"@,
                Error::TooManyRows => "expected 1 row, found more than 1"@,
                Error::Extract(_) => "failed to extract value from row"@,
            },
    {
        match self {
            Error::NoRows => "expected 1 row, found 0".to_owned(),
            Error::TooManyRows => "expected 1 row, found more than 1".to_owned(),
            Error::Extract(_) => "failed to extract value from row".to_owned(),
        }
    }
}

/// The objects that the rows of a result hold, as `extractor` reads and
/// merges them.
///
/// # Errors
///
/// `Extract` with the error of the first row that cannot be read.
pub fn fetch<R: Row>(extractor: &Extractor, rows: &[R]) -> (result: Result<Vec<Record>, Error>)
    ensures
        match extracted_multi(extractor.shape(), rows@) {
            Ok(objects) => result matches Ok(found) && record_views(found@) == objects,
            Err(e) => result matches Err(Error::Extract(error)) && error@ == e,
        },
{
    match extractor.from_row_multi(rows) {
        Ok(objects) => Ok(objects),
        Err(e) => Err(Error::from(e)),
    }
}

/// The object that the one row of a result holds, given the first row of
/// the result and whether a second follows it.
///
/// # Errors
///
/// `NoRows` where there is no first row, `TooManyRows` where a second
/// row follows the first, and else `Extract` where the row cannot be read.
pub fn fetch_one<R: Row>(extractor: &Extractor, first: Option<R>, more: bool) -> (result: Result<
    Record,
    Error,
>)
    ensures
        match first {
            None => result matches Err(Error::NoRows),
            Some(row) => if more {
                result matches Err(Error::TooManyRows)
            } else {
                match extracted(extractor.shape(), row.names(), row.values()) {
                    Ok(record) => result matches Ok(found) && found@ == record,
                    Err(e) => result matches Err(Error::Extract(error)) && error@ == e,
                }
            },
        },
{
    let row = exactly_one(first, more)?;
    match extractor.from_row(&row) {
        Ok(record) => Ok(record),
        Err(e) => Err(Error::from(e)),
    }
}

} // verus!
