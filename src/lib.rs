//! Shortest paths over the link graph of a wiki, built from its SQL dumps.
//!
//! - `sql` tokenizes dump text as it arrives; `loader` reads the rows of its
//!   `INSERT` statements.
//! - `rows` picks the columns that are kept; `index` fills the store with them.
//! - `sqlite` is the store of pages, redirects and links.
//! - `path` searches the link graph from both ends; `order` keeps neighbour
//!   lists sorted.
//! - `render` writes tokens out and shows that the tokenizer reads them back.
//! - `source` names the dump files and reads download headers; `cli` holds
//!   what the command line asks for.

pub mod cli;
pub mod index;
pub mod loader;
pub mod order;
pub mod path;
pub mod render;
pub mod rows;
pub mod source;
pub mod sql;
pub mod sqlite;
