//! The three passes that fill the store from the dumps.
//!
//! Each pass takes the rows that its reader holds so far and returns when the
//! reader needs more lines or has ended, so that the caller can feed the dump
//! in pieces and call the pass again after each.
use vstd::prelude::*;

use crate::loader::{
    Loader, LoaderError, RowScan, lemma_read_row_progress, lemma_read_row_settled, read_row, value_lexemes,
};
use crate::rows::{Decision, RowError, link_decision, link_row, page_decision, page_row};
use crate::sql::Lexeme;
use crate::sqlite::{Db, StoreOp};

verus! {

/// Counts kept by a pass. They stop at `u64::MAX`.
#[derive(Debug, Clone, Copy, PartialEq, Eq, Structural)]
pub struct PassStats {
    /// Rows read.
    pub count: u64,
    /// Rows stored.
    pub good: u64,
    /// Rows outside the main namespace.
    pub skipped: u64,
    /// Links whose target title is not a page.
    pub missing: u64,
}

/// The number of unresolved link targets that are reported by name.
pub const REPORTED_MISSING: u64 = 1000;

/// Why a pass stopped.
#[derive(Debug)]
pub enum IndexError {
    Rows(LoaderError),
    Row(RowError),
    Store(rusqlite::Error),
}

impl PassStats {
    pub fn new() -> (r: PassStats)
        ensures
            r == (PassStats { count: 0, good: 0, skipped: 0, missing: 0 }),
    {
        PassStats { count: 0, good: 0, skipped: 0, missing: 0 }
    }
}

/// One more, short of overflow.
pub fn bump(c: u64) -> (r: u64)
    ensures
        r == capped(c, 1),
{
    if c < u64::MAX {
        c + 1
    } else {
        c
    }
}

/// `c` raised by `k`, stopping at `u64::MAX`.
pub open spec fn capped(c: u64, k: nat) -> u64 {
    if c + k <= u64::MAX { (c + k) as u64 } else { u64::MAX }
}

/// Which dump a pass reads.
#[derive(Clone, Copy, PartialEq, Eq, Structural)]
pub enum PassKind {
    Pages,
    Redirects,
    Links,
}

pub open spec fn decide(kind: PassKind, ls: Seq<Lexeme>) -> Decision {
    if kind == PassKind::Links { link_decision(ls) } else { page_decision(ls) }
}

/// The row is kept, and, for a link, its target title named a page (`res`).
pub open spec fn stored(kind: PassKind, ls: Seq<Lexeme>, res: Option<u32>) -> bool {
    decide(kind, ls) is Keep && (kind != PassKind::Links || res is Some)
}

/// The requests that a pass hands to the store for the rows `rs`, where
/// `res` holds what the store answered for each link row's target title.
pub open spec fn ops_of(kind: PassKind, rs: Seq<Seq<Lexeme>>, res: Seq<Option<u32>>) -> Seq<StoreOp>
    decreases rs.len(),
{
    if rs.len() == 0 || res.len() != rs.len() {
        Seq::empty()
    } else {
        let prev = ops_of(kind, rs.drop_last(), res.drop_last());
        match decide(kind, rs.last()) {
            Decision::Keep(id, t) => match kind {
                PassKind::Pages => prev.push(StoreOp::Page(id, t)),
                PassKind::Redirects => prev.push(StoreOp::Redirect(id, t)),
                PassKind::Links => match res.last() {
                    Some(to) => prev.push(StoreOp::Link(id, to)),
                    None => prev,
                },
            },
            _ => prev,
        }
    }
}

/// The number of rows outside the main namespace.
pub open spec fn n_skipped(kind: PassKind, rs: Seq<Seq<Lexeme>>) -> nat
    decreases rs.len(),
{
    if rs.len() == 0 {
        0
    } else {
        n_skipped(kind, rs.drop_last()) + if decide(kind, rs.last()) is Skip { 1nat } else { 0nat }
    }
}

/// The number of rows handed to the store.
pub open spec fn n_stored(kind: PassKind, rs: Seq<Seq<Lexeme>>, res: Seq<Option<u32>>) -> nat
    decreases rs.len(),
{
    if rs.len() == 0 || res.len() != rs.len() {
        0
    } else {
        n_stored(kind, rs.drop_last(), res.drop_last()) + if stored(kind, rs.last(), res.last()) { 1nat } else { 0nat }
    }
}

/// The number of kept link rows whose target title names no page.
pub open spec fn n_missing(kind: PassKind, rs: Seq<Seq<Lexeme>>, res: Seq<Option<u32>>) -> nat
    decreases rs.len(),
{
    if rs.len() == 0 || res.len() != rs.len() {
        0
    } else {
        n_missing(kind, rs.drop_last(), res.drop_last()) + if decide(kind, rs.last()) is Keep && !stored(
            kind,
            rs.last(),
            res.last(),
        ) {
            1nat
        } else {
            0nat
        }
    }
}

/// Every row that a pass reads without error is stored, rejected for its
/// namespace, or counted as a link to a missing page: the three counts add up
/// to the rows read.
pub proof fn lemma_pass_tally(kind: PassKind, rs: Seq<Seq<Lexeme>>, res: Seq<Option<u32>>)
    requires
        res.len() == rs.len(),
        forall|i: int| 0 <= i < rs.len() ==> !(#[trigger] decide(kind, rs[i]) is Bad),
    ensures
        n_skipped(kind, rs) + n_stored(kind, rs, res) + n_missing(kind, rs, res) == rs.len(),
    decreases rs.len(),
{
    if rs.len() > 0 {
        let d = rs.drop_last();
        assert forall|i: int| 0 <= i < d.len() implies !(#[trigger] decide(kind, d[i]) is Bad) by {
            assert(d[i] == rs[i]);
        }
        lemma_pass_tally(kind, d, res.drop_last());
        assert(!(decide(kind, rs[rs.len() - 1]) is Bad));
    }
}

/// A pass over the rows `rs` that ended well: with `res` the store's answers
/// for the link targets, exactly the requests for the kept rows were handed
/// to the store, and each count grew by its rows.
pub open spec fn pass_done(
    kind: PassKind,
    rs: Seq<Seq<Lexeme>>,
    s0: PassStats,
    s1: PassStats,
    log0: Seq<StoreOp>,
    log1: Seq<StoreOp>,
) -> bool {
    exists|res: Seq<Option<u32>>|
        #![trigger ops_of(kind, rs, res)]
        {
            &&& res.len() == rs.len()
            &&& log1 == log0 + ops_of(kind, rs, res)
            &&& s1.count == capped(s0.count, rs.len())
            &&& s1.skipped == capped(s0.skipped, n_skipped(kind, rs))
            &&& s1.good == capped(s0.good, n_stored(kind, rs, res))
            &&& s1.missing == capped(s0.missing, n_missing(kind, rs, res))
        }
}

/// What a pass promises, given the rows `ahead` of its reader at the start.
pub open spec fn pass_contract(
    kind: PassKind,
    ahead: (Seq<Seq<Lexeme>>, RowScan),
    r: Result<(), IndexError>,
    rows: Loader,
    s0: PassStats,
    s1: PassStats,
    log0: Seq<StoreOp>,
    log1: Seq<StoreOp>,
) -> bool {
    let rs = ahead.0;
    &&& (r matches Err(IndexError::Rows(_))) ==> ahead.1 is Fail && forall|i: int|
        0 <= i < rs.len() ==> !(#[trigger] decide(kind, rs[i]) is Bad)
    &&& (r matches Err(IndexError::Row(_))) ==> exists|i: int| 0 <= i < rs.len() && #[trigger] decide(kind, rs[i]) is Bad
    &&& (!(ahead.1 is Fail) && forall|i: int| 0 <= i < rs.len() ==> #[trigger] decide(kind, rs[i]) is Skip) ==> r is Ok
    &&& r is Ok ==> {
        &&& !(ahead.1 is Fail)
        &&& forall|i: int| 0 <= i < rs.len() ==> !(#[trigger] decide(kind, rs[i]) is Bad)
        &&& rows.settled()
        &&& pass_done(kind, rs, s0, s1, log0, log1)
    }
}

proof fn lemma_ahead_step(l: Loader, o: (RowScan, crate::loader::Stage, Seq<Lexeme>, nat))
    requires
        o == read_row(l.stage(), value_lexemes(l.partial()), l.rest(), l.finished()),
    ensures
        o.0 is Row ==> 1 <= o.3 <= l.rest().len() && l.ahead() == (
            seq![o.0->Row_0] + crate::loader::rows_ahead(o.1, o.2, l.rest().skip(o.3 as int), l.finished()).0,
            crate::loader::rows_ahead(o.1, o.2, l.rest().skip(o.3 as int), l.finished()).1,
        ),
        !(o.0 is Row) ==> l.ahead() == (Seq::<Seq<Lexeme>>::empty(), o.0),
{
    lemma_read_row_progress(l.stage(), value_lexemes(l.partial()), l.rest(), l.finished());
}

/// Reads the rows that `rows` holds and hands the kept ones to the store.
fn run_pass(
    kind: PassKind,
    db: &mut Db,
    rows: &mut Loader,
    stats: &mut PassStats,
    report: &mut Vec<String>,
) -> (r: Result<(), IndexError>)
    requires
        old(rows).wf(),
    ensures
        final(rows).wf(),
        final(report)@.len() >= old(report)@.len(),
        pass_contract(kind, old(rows).ahead(), r, *final(rows), *old(stats), *final(stats), old(db).log(), final(db).log()),
{
    let ghost a = rows.ahead();
    let ghost rs = a.0;
    let ghost s0 = *stats;
    let ghost log0 = db.log();
    let ghost mut res: Seq<Option<u32>> = Seq::empty();
    let ghost mut done: nat = 0;
    loop
        invariant
            rows.wf(),
            a == old(rows).ahead(),
            rs == a.0,
            s0 == *old(stats),
            log0 == old(db).log(),
            report@.len() >= old(report)@.len(),
            done <= rs.len(),
            res.len() == done,
            rows.ahead() == (rs.skip(done as int), a.1),
            forall|i: int| 0 <= i < done ==> !(#[trigger] decide(kind, rs[i]) is Bad),
            db.log() == log0 + ops_of(kind, rs.take(done as int), res),
            stats.count == capped(s0.count, done),
            stats.skipped == capped(s0.skipped, n_skipped(kind, rs.take(done as int))),
            stats.good == capped(s0.good, n_stored(kind, rs.take(done as int), res)),
            stats.missing == capped(s0.missing, n_missing(kind, rs.take(done as int), res)),
        decreases rows.rest().len(),
    {
        let ghost st = rows.stage();
        let ghost p = value_lexemes(rows.partial());
        let ghost s = rows.rest();
        let ghost eof = rows.finished();
        let ghost o = read_row(st, p, s, eof);
        proof {
            lemma_ahead_step(*rows, o);
            lemma_read_row_progress(st, p, s, eof);
        }
        let row = match rows.next_tuple() {
            Err(e) => {
                assert(rs.skip(done as int).len() == 0);
                return Err(IndexError::Rows(e));
            },
            Ok(None) => {
                proof {
                    lemma_read_row_settled(st, p, s, eof);
                }
                assert(rs.skip(done as int).len() == 0);
                assert(rs.take(done as int) =~= rs);
                return Ok(());
            },
            Ok(Some(row)) => row,
        };
        let ghost ls = value_lexemes(row@);
        assert(o.0 == RowScan::Row(ls));
        assert(rows.ahead() == crate::loader::rows_ahead(o.1, o.2, s.skip(o.3 as int), eof));
        assert(rs.skip(done as int) =~= seq![ls] + rows.ahead().0);
        assert(rs.skip(done as int).len() >= 1);
        assert(done < rs.len());
        assert(rs.skip(done as int)[0] == ls);
        assert(rs[done as int] == ls);
        assert(rows.ahead().0 =~= rs.skip((done + 1) as int)) by {
            let x = rows.ahead().0;
            assert(rs.skip((done + 1) as int) =~= rs.skip(done as int).skip(1));
            assert((seq![ls] + x).skip(1) =~= x);
        }
        let ghost t0 = rs.take(done as int);
        let ghost t1 = rs.take((done + 1) as int);
        assert(t1.drop_last() =~= t0);
        assert(t1.last() == ls);
        stats.count = bump(stats.count);
        let decided = if kind == PassKind::Links { link_row(row) } else { page_row(row) };
        let ghost mut answer: Option<u32> = None;
        match decided {
            Err(e) => {
                assert(decide(kind, rs[done as int]) is Bad);
                return Err(IndexError::Row(e));
            },
            Ok(None) => {
                stats.skipped = bump(stats.skipped);
            },
            Ok(Some((id, title))) => {
                let mut kept = true;
                let step = match kind {
                    PassKind::Pages => db.add(id, title),
                    PassKind::Redirects => db.add_redirect(id, title.as_str()),
                    PassKind::Links => {
                        let found = db.index(title.as_str());
                        proof {
                            answer = found;
                        }
                        match link_action(id, found, stats.missing) {
                            LinkAction::Store(a, b) => db.add_link((a, b)),
                            LinkAction::Missing { report: tell } => {
                                kept = false;
                                stats.missing = bump(stats.missing);
                                if tell {
                                    report.push(title);
                                }
                                Ok(())
                            },
                        }
                    },
                };
                match step {
                    Ok(()) => {},
                    Err(e) => return Err(IndexError::Store(e)),
                }
                if kept {
                    stats.good = bump(stats.good);
                }
            },
        }
        proof {
            let res1 = res.push(answer);
            assert(res1.drop_last() =~= res);
            assert(res1.last() == answer);
            assert(db.log() =~= log0 + ops_of(kind, t1, res1));
            res = res1;
            done = done + 1;
        }
    }
}

/// The pass over the `page` dump: stores each page of the main namespace.
pub fn index_pages(db: &mut Db, rows: &mut Loader, stats: &mut PassStats) -> (r: Result<(), IndexError>)
    requires
        old(rows).wf(),
    ensures
        final(rows).wf(),
        pass_contract(PassKind::Pages, old(rows).ahead(), r, *final(rows), *old(stats), *final(stats), old(db).log(), final(db).log()),
{
    let mut report: Vec<String> = Vec::new();
    run_pass(PassKind::Pages, db, rows, stats, &mut report)
}

/// The pass over the `redirect` dump: stores each redirect of the main
/// namespace.
pub fn index_redirects(db: &mut Db, rows: &mut Loader, stats: &mut PassStats) -> (r: Result<(), IndexError>)
    requires
        old(rows).wf(),
    ensures
        final(rows).wf(),
        pass_contract(PassKind::Redirects, old(rows).ahead(), r, *final(rows), *old(stats), *final(stats), old(db).log(), final(db).log()),
{
    let mut report: Vec<String> = Vec::new();
    run_pass(PassKind::Redirects, db, rows, stats, &mut report)
}

/// What to do with a link row, given what the store answered for its
/// target's title: store the link, or count the target as missing (and
/// whether to report it by name).
pub enum LinkAction {
    Store(u32, u32),
    Missing { report: bool },
}

/// The decision for a link from `from` whose target the store resolved to
/// `to`, with `missing` targets counted before it.
pub fn link_action(from: u32, to: Option<u32>, missing: u64) -> (r: LinkAction)
    ensures
        match to {
            Some(t) => r == LinkAction::Store(from, t),
            None => r == LinkAction::Missing { report: missing < REPORTED_MISSING },
        },
{
    match to {
        Some(t) => LinkAction::Store(from, t),
        None => LinkAction::Missing { report: missing < REPORTED_MISSING },
    }
}

/// The pass over the `pagelinks` dump: stores each link between pages of the
/// main namespace whose target title names a page. The titles of the first
/// targets that name none are added to `report`.
pub fn index_links(db: &mut Db, rows: &mut Loader, stats: &mut PassStats, report: &mut Vec<String>) -> (r: Result<(), IndexError>)
    requires
        old(rows).wf(),
    ensures
        final(rows).wf(),
        final(report)@.len() >= old(report)@.len(),
        pass_contract(PassKind::Links, old(rows).ahead(), r, *final(rows), *old(stats), *final(stats), old(db).log(), final(db).log()),
{
    run_pass(PassKind::Links, db, rows, stats, report)
}

} // verus!
