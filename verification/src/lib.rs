//! Queries with named parameters, and typed extraction of their results.
//!
//! The crate has three parts.
//!
//! - [`parse`](crate::parse) turns SQL text with `$name` placeholders into
//!   SQL with numbered placeholders and the list of its parameters, and
//!   [`Query`] holds the two.
//! - A [`Shape`] says how an object is read from a [`Row`]: which field
//!   from which columns ([`plan`]), as a cell or as a record of its own
//!   ([`from_sql_row`]), and which rows make one object ([`merge`]).
//! - [`cache`] memoises prepared statements for a small, mostly fixed set
//!   of queries.

pub mod attrs;
pub mod cache;
pub mod error;
pub mod execute;
pub mod extract;
pub mod from_sql_row;
pub mod merge;
pub mod merge_laws;
pub mod merger;
pub mod parse;
pub mod plan;
pub mod query;
pub mod record;
pub mod row;
mod sealed;
pub mod search;
pub mod shape;
pub mod text;
pub mod value;

pub use crate::attrs::{ContainerAttributes, FieldAttributes, MergeKind, PartitionKind};
pub use crate::error::{Error, ParseError};
pub use crate::from_sql_row::Extractor;
pub use crate::query::Query;
pub use crate::record::{Item, Record};
pub use crate::row::{DataRow, Row, RowSlice};
pub use crate::shape::{Field, FieldType, Shape};
pub use crate::value::{Kind, Type, Value};
