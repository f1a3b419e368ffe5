//! Reading and rewriting the strings of NXD tables.
//!
//! An NXD table is a little-endian binary file: a header, an index of rows,
//! the rows' fixed-size cells, and a trailing pool of null-terminated UTF-8
//! strings that string cells point into. The library decodes every string
//! cell under a column layout supplied by the caller, and rebuilds the pool
//! with replacement texts, rewriting each pointer to its new string.

pub mod binary;
pub mod cli;
pub mod error;
pub mod laws;
pub mod nxd;
pub mod rewrite;
pub mod schema;

pub use cli::{path_to_tablename, Cli, CliCommand, CliExportOutput, CliInjectInput, Error};
pub use error::NxdError;
pub use nxd::{read_rows, Pointer, RowInfo};
pub use rewrite::{update_rows, TextOverrides};
pub use schema::{Cell, TableColumns};
