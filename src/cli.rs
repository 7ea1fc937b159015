//! What the command line asks for.
use vstd::prelude::*;

verus! {

/// The arguments of the program.
pub struct Args {
    pub cmd: Command,
    /// Database path (default: ./<wikiname>-db.sq3)
    pub db_path: Option<String>,
    /// Name of the wiki to dump from Wikimedia archives
    pub wikiname: String,
}

/// A table of the dumps.
#[derive(Debug, Clone, Copy, PartialEq, Eq, Structural)]
pub enum Table {
    /// Maps article names to article IDs
    Page,
    /// Maps redirected articles to the redirection target
    Redirect,
    /// IDs of articles related by a link
    Link,
}

impl Table {
    /// The table's position among the dump files.
    pub fn position(self) -> (r: usize)
        ensures
            r == match self {
                Table::Page => 0usize,
                Table::Redirect => 1usize,
                Table::Link => 2usize,
            },
    {
        match self {
            Table::Page => 0,
            Table::Redirect => 1,
            Table::Link => 2,
        }
    }
}

/// A subcommand.
pub enum Command {
    /// Download the dumps from the Wikimedia archives
    Download,
    /// Parse a dump and print its rows
    Parse { table: Table },
    /// Build the index of one table, or of all three
    Index { mode: Option<Table> },
    /// Search the titles with an SQL LIKE pattern; without one, read patterns
    /// from standard input
    Search { query: Option<String> },
    /// Compute a path from one title to another
    Path { start: String, end: String },
}

/// The database file: the one given, else `./<wikiname>-db.sq3`.
pub fn db_path(wikiname: &str, path: &Option<String>) -> (r: String)
    ensures
        r@ == match path {
            Some(p) => p@,
            None => "./"@ + wikiname@ + "-db.sq3"@,
        },
{
    match path {
        Some(p) => p.clone(),
        None => {
            let mut s = "./".to_owned();
            s.append(wikiname);
            s.append("-db.sq3");
            s
        },
    }
}

} // verus!
