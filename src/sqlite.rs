//! The page, redirect and link tables, kept in an SQLite database file.
//!
//! What the database holds lives on disk, so the contracts here say only what
//! holds whatever it answers. Lists of neighbours are sorted and freed of
//! duplicates here, whatever order the database gives them in.
//!
//! Redirects are stored and shown by `search`, but they add no edges to the
//! link graph.
use vstd::prelude::*;

use crate::order::{sorted_unique, strictly_ascending};
use crate::path::bidi_dijkstra;

verus! {

#[verifier::external_type_specification]
#[verifier::external_body]
pub struct ExConnection(rusqlite::Connection);

#[verifier::external_type_specification]
#[verifier::external_body]
pub struct ExError(rusqlite::Error);

/// Relies on `rusqlite::Connection::open_with_flags`: opens an existing
/// database file for reading and writing, without creating it.
#[verifier::external_body]
fn open_existing(path: &str) -> (r: Result<rusqlite::Connection, rusqlite::Error>) {
    let mut flags = rusqlite::OpenFlags::default();
    flags.remove(rusqlite::OpenFlags::SQLITE_OPEN_CREATE);
    rusqlite::Connection::open_with_flags(path, flags)
}

/// Relies on `rusqlite::Connection::open`: opens the database file, creating it.
#[verifier::external_body]
fn open_or_create(path: &str) -> (r: Result<rusqlite::Connection, rusqlite::Error>) {
    rusqlite::Connection::open(path)
}

/// Relies on `rusqlite::Connection::execute_batch`: runs the statements.
#[verifier::external_body]
fn run_batch(conn: &rusqlite::Connection, sql: &str) -> (r: Result<(), rusqlite::Error>) {
    conn.execute_batch(sql)
}

/// Relies on `rusqlite::Connection::prepare_cached` and
/// `rusqlite::Statement::execute`: runs `sql` with an id and a text bound to
/// its two parameters.
#[verifier::external_body]
fn execute_id_text(conn: &rusqlite::Connection, sql: &str, id: u32, text: &str) -> (r: Result<usize, rusqlite::Error>) {
    conn.prepare_cached(sql)?.execute((id, text))
}

/// Relies on `rusqlite::Connection::prepare_cached` and
/// `rusqlite::Statement::execute`: runs `sql` with two ids bound to its two
/// parameters.
#[verifier::external_body]
fn execute_id_id(conn: &rusqlite::Connection, sql: &str, a: u32, b: u32) -> (r: Result<usize, rusqlite::Error>) {
    conn.prepare_cached(sql)?.execute((a, b))
}

/// Relies on `rusqlite::Connection::prepare_cached` and
/// `rusqlite::Statement::query_map`: the first column of each row that `sql`
/// gives for the id, in the order the database gives them.
#[verifier::external_body]
fn query_ids(conn: &rusqlite::Connection, sql: &str, id: u32) -> (r: Result<Vec<u32>, rusqlite::Error>) {
    conn.prepare_cached(sql)?.query_map((id,), |row| row.get(0))?.collect()
}

/// Relies on `rusqlite::Connection::query_row`: the id in the first row that
/// `sql` gives for the text, if there is one.
#[verifier::external_body]
fn query_id_of_text(conn: &rusqlite::Connection, sql: &str, text: &str) -> (r: Option<u32>) {
    conn.query_row(sql, (text,), |row| row.get(0)).ok()
}

/// Relies on `rusqlite::Connection::query_row`: the text in the first row that
/// `sql` gives for the id, if there is one.
#[verifier::external_body]
fn query_text_of_id(conn: &rusqlite::Connection, sql: &str, id: u32) -> (r: Option<String>) {
    conn.query_row(sql, (id,), |row| row.get(0)).ok()
}

/// Relies on `rusqlite::Connection::prepare_cached` and
/// `rusqlite::Statement::query_map`: the id, title and redirect target of
/// each row that `sql` gives for the pattern.
#[verifier::external_body]
fn query_matches(conn: &rusqlite::Connection, sql: &str, pattern: &str) -> (r: Result<Vec<(u32, String, Option<String>)>, rusqlite::Error>) {
    conn.prepare_cached(sql)?.query_map((pattern,), |row| Ok((row.get(0)?, row.get(1)?, row.get(2)?)))?.collect()
}

/// Settings for a single writer that loads in bulk.
pub const PRAGMAS: &'static str = "
    PRAGMA journal_mode = OFF;
    PRAGMA synchronous = 0;
    PRAGMA cache_size = 100000;
    PRAGMA locking_mode = EXCLUSIVE;
    PRAGMA temp_store = MEMORY;
";

pub const SCHEMA: &'static str = "
    CREATE TABLE page (id int(8) primary key, title text unique) without rowid;
    CREATE TABLE link (`to` int(8), `from` int(8), primary key (`to`, `from`)) without rowid;
    CREATE TABLE redirect (id int(8) primary key, title text) without rowid;
    CREATE INDEX link_reverse ON link(`from`);
";

const SEARCH: &'static str = "SELECT page.id, page.title, redirect.title FROM page LEFT JOIN redirect ON page.id = redirect.id WHERE page.title LIKE ?1";

const ADD_PAGE: &'static str = "INSERT INTO page VALUES (?1, ?2)";

const ADD_LINK: &'static str = "INSERT OR IGNORE INTO link(`from`, `to`) VALUES (?1, ?2)";

const ADD_REDIRECT: &'static str = "INSERT OR IGNORE INTO redirect VALUES (?1, ?2)";

const LINKS_TO: &'static str = "SELECT `from` FROM link WHERE `to` = ?1";

const LINKS_FROM: &'static str = "SELECT `to` FROM link WHERE `from` = ?1";

const INDEX: &'static str = "SELECT id FROM page WHERE title = ?1";

const LOOKUP: &'static str = "SELECT title FROM page WHERE id = ?1";

/// Why no path could be given.
#[derive(Debug)]
pub enum PathError {
    /// No page has this title.
    UnknownTitle(String),
    /// The search ended without joining the two pages.
    NoPathFound,
}

/// A request handed to the store.
pub enum StoreOp {
    /// Statements run as one batch.
    Batch(Seq<char>),
    Page(u32, Seq<char>),
    Redirect(u32, Seq<char>),
    Link(u32, u32),
}

/// The page store.
pub struct Db {
    inner: rusqlite::Connection,
    /// Every request handed to the store through this handle, in order.
    log: Ghost<Seq<StoreOp>>,
}

/// The batches that opening runs: the settings, then the tables where the
/// file was created.
pub open spec fn setup_log(fresh: bool) -> Seq<StoreOp> {
    if fresh {
        seq![StoreOp::Batch(PRAGMAS@), StoreOp::Batch(SCHEMA@)]
    } else {
        seq![StoreOp::Batch(PRAGMAS@)]
    }
}

/// The text that stands for a page whose title could not be found.
pub open spec fn unknown_title() -> Seq<char> {
    seq!['?', '?', '?']
}

/// The titles of a path's pages, with `???` for each one that is missing.
pub fn render_path(titles: Vec<Option<String>>) -> (r: Vec<String>)
    ensures
        r@.len() == titles@.len(),
        forall|i: int| 0 <= i < titles@.len() ==> #[trigger] r@[i]@ == match titles@[i] {
            Some(t) => t@,
            None => unknown_title(),
        },
{
    let mut titles = titles;
    let ghost t0 = titles@;
    let mut out: Vec<String> = Vec::new();
    let mut k: usize = 0;
    let n = titles.len();
    while k < n
        invariant
            n == t0.len(),
            titles@.len() == n,
            out@.len() == k,
            k <= n,
            forall|i: int| k <= i < n ==> titles@[i] == t0[i],
            forall|i: int| 0 <= i < k ==> #[trigger] out@[i]@ == match t0[i] {
                Some(t) => t@,
                None => unknown_title(),
            },
        decreases n - k,
    {
        let mut slot: Option<String> = None;
        std::mem::swap(&mut slot, &mut titles[k]);
        let s = match slot {
            Some(t) => t,
            None => {
                let q = "???".to_owned();
                proof {
                    reveal_strlit("???");
                }
                assert(q@ =~= unknown_title());
                q
            },
        };
        out.push(s);
        k += 1;
    }
    out
}

/// `v` shows the titles, with `???` for each one that is missing.
pub open spec fn rendered(titles: Seq<Option<String>>, v: Seq<String>) -> bool {
    &&& v.len() == titles.len()
    &&& forall|i: int| 0 <= i < titles.len() ==> #[trigger] v[i]@ == match titles[i] {
        Some(t) => t@,
        None => unknown_title(),
    }
}

/// The ends of a path, from the ids that the store gave for the two titles.
pub fn path_ends(from: &str, to: &str, a: Option<u32>, b: Option<u32>) -> (r: Result<(u32, u32), PathError>)
    ensures
        a is None ==> (r matches Err(PathError::UnknownTitle(t)) && t@ == from@),
        a is Some && b is None ==> (r matches Err(PathError::UnknownTitle(t)) && t@ == to@),
        a is Some && b is Some ==> r == Ok::<(u32, u32), PathError>((a->0, b->0)),
{
    let x = match a {
        Some(x) => x,
        None => return Err(PathError::UnknownTitle(from.to_owned())),
    };
    let y = match b {
        Some(y) => y,
        None => return Err(PathError::UnknownTitle(to.to_owned())),
    };
    Ok((x, y))
}

/// The answer for a search that found the ids `found`, whose titles the store
/// gave as `titles`: no path, or the titles with `???` for missing ones.
pub fn path_outcome(found: Option<Vec<u32>>, titles: Vec<Option<String>>) -> (r: Result<Vec<String>, PathError>)
    ensures
        found is None ==> (r matches Err(PathError::NoPathFound)),
        found is Some ==> (r matches Ok(v) && rendered(titles@, v@)),
{
    match found {
        None => Err(PathError::NoPathFound),
        Some(_) => Ok(render_path(titles)),
    }
}

impl Db {
    /// Every request handed to the store through this handle, in order.
    pub closed spec fn log(&self) -> Seq<StoreOp> {
        self.log@
    }

    /// Opens the database file at `path`, creating it with the tables where
    /// it does not exist yet.
    ///
    /// The settings are run on every open. The tables are created only where
    /// opening the existing file failed and a new one was made.
    pub fn new(path: &str) -> (r: Result<Db, rusqlite::Error>)
        ensures
            r matches Ok(d) ==> (d.log() == setup_log(false) || d.log() == setup_log(true)),
    {
        let (inner, fresh) = match open_existing(path) {
            Ok(c) => (c, false),
            Err(_) => match open_or_create(path) {
                Ok(c) => (c, true),
                Err(e) => return Err(e),
            },
        };
        let ghost log = seq![StoreOp::Batch(PRAGMAS@)];
        match run_batch(&inner, PRAGMAS) {
            Ok(()) => {},
            Err(e) => return Err(e),
        }
        let mut db = Db { inner, log: Ghost(log) };
        if fresh {
            match db.initialize() {
                Ok(()) => {},
                Err(e) => return Err(e),
            }
            assert(db.log() =~= setup_log(true));
        }
        Ok(db)
    }

    /// Creates the tables and the reverse link index.
    pub fn initialize(&mut self) -> (r: Result<(), rusqlite::Error>)
        ensures
            final(self).log() == old(self).log().push(StoreOp::Batch(SCHEMA@)),
    {
        self.log = Ghost(self.log@.push(StoreOp::Batch(SCHEMA@)));
        run_batch(&self.inner, SCHEMA)
    }

    /// The pages whose title is LIKE `pattern`, each with its redirect target
    /// if it has one.
    pub fn search(&mut self, pattern: &str) -> (r: Result<Vec<(u32, String, Option<String>)>, rusqlite::Error>)
        ensures
            final(self).log() == old(self).log(),
    {
        query_matches(&self.inner, SEARCH, pattern)
    }

    /// Inserts a page; a page with this id or title already there is an error.
    pub fn add(&mut self, id: u32, name: String) -> (r: Result<(), rusqlite::Error>)
        ensures
            final(self).log() == old(self).log().push(StoreOp::Page(id, name@)),
    {
        self.log = Ghost(self.log@.push(StoreOp::Page(id, name@)));
        match execute_id_text(&self.inner, ADD_PAGE, id, name.as_str()) {
            Ok(_) => Ok(()),
            Err(e) => Err(e),
        }
    }

    /// The pages that link to `to`, ascending, each once.
    pub fn links_to(&self, to: u32) -> (r: Vec<u32>)
        ensures
            strictly_ascending(r@),
    {
        self.links_query(LINKS_TO, to)
    }

    /// The pages that `from` links to, ascending, each once.
    pub fn links_from(&self, from: u32) -> (r: Vec<u32>)
        ensures
            strictly_ascending(r@),
    {
        self.links_query(LINKS_FROM, from)
    }

    /// The ids that `query` gives for `id`, ascending, each once. A failed
    /// query gives none.
    pub fn links_query(&self, query: &str, id: u32) -> (r: Vec<u32>)
        ensures
            strictly_ascending(r@),
    {
        match query_ids(&self.inner, query, id) {
            Ok(v) => sorted_unique(v),
            Err(_) => Vec::new(),
        }
    }

    /// Inserts a link; one already there is kept as it is.
    pub fn add_link(&mut self, link: (u32, u32)) -> (r: Result<(), rusqlite::Error>)
        ensures
            final(self).log() == old(self).log().push(StoreOp::Link(link.0, link.1)),
    {
        self.log = Ghost(self.log@.push(StoreOp::Link(link.0, link.1)));
        match execute_id_id(&self.inner, ADD_LINK, link.0, link.1) {
            Ok(_) => Ok(()),
            Err(e) => Err(e),
        }
    }

    /// Inserts a redirect; one with this id already there is kept as it is.
    pub fn add_redirect(&mut self, from: u32, title: &str) -> (r: Result<(), rusqlite::Error>)
        ensures
            final(self).log() == old(self).log().push(StoreOp::Redirect(from, title@)),
    {
        self.log = Ghost(self.log@.push(StoreOp::Redirect(from, title@)));
        match execute_id_text(&self.inner, ADD_REDIRECT, from, title) {
            Ok(_) => Ok(()),
            Err(e) => Err(e),
        }
    }

    /// The id of the page with this title.
    pub fn index(&self, name: &str) -> (r: Option<u32>) {
        query_id_of_text(&self.inner, INDEX, name)
    }

    /// The title of the page with this id.
    pub fn lookup(&self, id: u32) -> (r: Option<String>) {
        query_text_of_id(&self.inner, LOOKUP, id)
    }

    /// A path of titles from the page titled `from` to the one titled `to`,
    /// found by bidirectional search over the stored links. A page on it
    /// whose title cannot be found is shown as `???`.
    ///
    /// The search's oracles are the store's neighbour lists, so what the path
    /// is linked by is whatever the store answered; `path_ends` and
    /// `path_outcome` state the answer for given store replies.
    pub fn path(&self, from: &str, to: &str) -> (r: Result<Vec<String>, PathError>)
        ensures
            r matches Err(PathError::UnknownTitle(t)) ==> t@ == from@ || t@ == to@,
            r matches Ok(v) ==> v@.len() > 0,
    {
        let (a, b) = match path_ends(from, to, self.index(from), self.index(to)) {
            Ok(ends) => ends,
            Err(e) => return Err(e),
        };
        let links_from = |x: u32| -> (r: Vec<u32>)
            ensures
                strictly_ascending(r@),
            { self.links_from(x) };
        let links_to = |x: u32| -> (r: Vec<u32>)
            ensures
                strictly_ascending(r@),
            { self.links_to(x) };
        let found = bidi_dijkstra(a, b, links_from, links_to);
        let mut titles: Vec<Option<String>> = Vec::new();
        match &found {
            Some(ids) => {
                let mut k: usize = 0;
                while k < ids.len()
                    invariant
                        k <= ids@.len(),
                        titles@.len() == k,
                    decreases ids.len() - k,
                {
                    titles.push(self.lookup(ids[k]));
                    k += 1;
                }
            },
            None => {},
        }
        let ghost n = titles@.len();
        let ghost some = found is Some;
        assert(some ==> n > 0);
        path_outcome(found, titles)
    }
}

} // verus!
