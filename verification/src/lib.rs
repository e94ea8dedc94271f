//! A single-file record store: fixed-size pages of length-prefixed rows, appended to in
//! order, saved and loaded as one encoded sequence of pages.
//!
//! Rows and pages are encoded and decoded by `bincode`. The byte layout that it
//! produces is stated in [`wire`], and the functions here are verified against that
//! statement. What is believed without proof is marked as trusted where it stands: the
//! contracts of the calls into `bincode`, and those of the two calls into the standard
//! library that turn bytes into text and trim a line.

pub mod error;
pub mod wire;
pub mod row;
pub mod page;
pub mod pager;
pub mod table;
pub mod grammar;
pub mod statements;

pub use error::TableError;
pub use row::{Row, RowView};
pub use page::{Page, PageIterator, PageView, PAGE_SIZE};
pub use pager::{Pager, TABLE_MAX_PAGES};
pub use table::{Table, TableIterator, TableView};
pub use statements::{parse_meta_command, parse_statement, unrecognized, Insert, MetaCommand, Select, Statement, EMAIL_MAX_BYTES, USERNAME_MAX_BYTES};
