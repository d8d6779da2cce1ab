//! An embedded record store whose columns are newline-framed byte logs.
//!
//! A column is a byte string: records, each followed by one line feed.
//! This crate is the logic of such a store, on bytes. It appends records,
//! shows them to a closure one by one, and rewrites a column by what the
//! closure answers. It opens no file: a caller reads a column's bytes,
//! hands them to [`C`], and writes back what [`C`] holds afterwards.
//!
//! - [`codec`]: how records stand in a column, and how they are read back.
//! - [`callback`]: what a closure answers when it is shown a record.
//! - [`scan`]: the words in which the scans are specified, and what
//!   follows from them.
//! - [`c`]: the column and its operations.
//! - [`db`]: how the files of a store are named.
//! - [`result`]: the store's error.

pub mod c;
pub mod callback;
pub mod codec;
pub mod db;
pub mod result;
pub mod scan;

pub use c::{ColumnView, C};
pub use result::Error;
