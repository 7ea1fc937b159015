//! The columns that the index reads from the rows of each dump.
//!
//! Only pages of the main namespace, 0, are kept. A `page` or `redirect` row
//! starts with the page id, its namespace and its title; a `pagelinks` row
//! with the source page id, the target's namespace, the target's title and
//! the source's namespace. The columns are read in that order, and reading
//! stops at the first one that is missing or of the wrong type, or that puts
//! the row outside the main namespace.
use vstd::prelude::*;

use crate::loader::value_lexemes;
use crate::sql::{Lexeme, TypeError, Value};

verus! {

/// Why a row could not be read.
#[derive(Debug)]
pub enum RowError {
    /// The row has fewer columns than are read.
    Short,
    /// A column holds a value of another type.
    Type(TypeError),
}

/// A page id as the dump writes it, taken modulo 2^32.
pub open spec fn page_id(n: i64) -> u32 {
    n as u32
}

/// Column `i` is there and holds an integer (`want_int`) or a string.
pub open spec fn column_is(row: Seq<Value>, i: int, want_int: bool) -> bool {
    &&& 0 <= i < row.len()
    &&& if want_int { row[i] is Integer } else { row[i] is String }
}

pub open spec fn int_at(row: Seq<Value>, i: int) -> i64 {
    row[i]->Integer_0
}

/// `r` is the error for column `i`: missing, or of the wrong type.
pub open spec fn fails_at(r: Result<Option<(u32, String)>, RowError>, row: Seq<Value>, i: int) -> bool {
    if i >= row.len() {
        r matches Err(RowError::Short)
    } else {
        r matches Err(RowError::Type(TypeError(v))) && v == row[i]
    }
}

/// `r` is the row's id, from column `i`, and its title, from column `j`.
pub open spec fn keeps(r: Result<Option<(u32, String)>, RowError>, row: Seq<Value>, i: int, j: int) -> bool {
    r matches Ok(Some((id, title))) && id == page_id(int_at(row, i)) && title@ == row[j]->String_0@
}

/// What becomes of a row read as lexemes.
pub enum Decision {
    /// A column is missing or of the wrong type.
    Bad,
    /// The row lies outside the main namespace.
    Skip,
    /// The row is kept with this id and title.
    Keep(u32, Seq<char>),
}

/// Lexeme `i` is there and is an integer (`want_int`) or a string.
pub open spec fn lex_is(ls: Seq<Lexeme>, i: int, want_int: bool) -> bool {
    &&& 0 <= i < ls.len()
    &&& if want_int { ls[i] is Int } else { ls[i] is Str }
}

pub open spec fn lex_int(ls: Seq<Lexeme>, i: int) -> int {
    ls[i]->Int_0
}

/// A `page` or `redirect` row read as lexemes.
pub open spec fn page_decision(ls: Seq<Lexeme>) -> Decision {
    if !lex_is(ls, 0, true) || !lex_is(ls, 1, true) {
        Decision::Bad
    } else if lex_int(ls, 1) != 0 {
        Decision::Skip
    } else if !lex_is(ls, 2, false) {
        Decision::Bad
    } else {
        Decision::Keep(page_id(lex_int(ls, 0) as i64), ls[2]->Str_0)
    }
}

/// A `pagelinks` row read as lexemes.
pub open spec fn link_decision(ls: Seq<Lexeme>) -> Decision {
    if !lex_is(ls, 0, true) || !lex_is(ls, 1, true) {
        Decision::Bad
    } else if lex_int(ls, 1) != 0 {
        Decision::Skip
    } else if !lex_is(ls, 2, false) || !lex_is(ls, 3, true) {
        Decision::Bad
    } else if lex_int(ls, 3) != 0 {
        Decision::Skip
    } else {
        Decision::Keep(page_id(lex_int(ls, 0) as i64), ls[2]->Str_0)
    }
}

/// How a row reader's answer stands to the decision `d`.
pub open spec fn decided(r: Result<Option<(u32, String)>, RowError>, d: Decision) -> bool {
    match d {
        Decision::Bad => r is Err,
        Decision::Skip => r matches Ok(None),
        Decision::Keep(id, t) => r matches Ok(Some((i, u))) && i == id && u@ == t,
    }
}

proof fn lemma_lexemes_of(row: Seq<Value>)
    ensures
        value_lexemes(row).len() == row.len(),
        forall|i: int| 0 <= i < row.len() ==> {
            let l = #[trigger] value_lexemes(row)[i];
            &&& (l is Int <==> row[i] is Integer)
            &&& (l is Str <==> row[i] is String)
            &&& (row[i] is Integer ==> l->Int_0 == row[i]->Integer_0 as int && (l->Int_0 as i64) == row[i]->Integer_0)
            &&& (row[i] is String ==> l->Str_0 == row[i]->String_0@)
        },
{
}

/// Takes the first column off the row.
fn next_column(row: &mut Vec<Value>) -> (r: Result<Value, RowError>)
    ensures
        old(row)@.len() == 0 ==> (r matches Err(RowError::Short) && final(row)@ == old(row)@),
        old(row)@.len() > 0 ==> (r matches Ok(v) && v == old(row)@[0] && final(row)@ == old(row)@.skip(1)),
{
    if row.len() == 0 {
        Err(RowError::Short)
    } else {
        let v = row.remove(0);
        assert(row@ =~= old(row)@.skip(1));
        Ok(v)
    }
}

fn next_int(row: &mut Vec<Value>) -> (r: Result<i64, RowError>)
    ensures
        old(row)@.len() == 0 ==> (r matches Err(RowError::Short)),
        old(row)@.len() > 0 && !(old(row)@[0] is Integer) ==> (r matches Err(RowError::Type(TypeError(v))) && v == old(row)@[0]),
        old(row)@.len() > 0 && old(row)@[0] is Integer ==> r == Ok::<i64, RowError>(old(row)@[0]->Integer_0),
        r is Ok ==> final(row)@ == old(row)@.skip(1),
{
    match next_column(row) {
        Ok(v) => match v.integer() {
            Ok(n) => Ok(n),
            Err(e) => Err(RowError::Type(e)),
        },
        Err(e) => Err(e),
    }
}

fn next_string(row: &mut Vec<Value>) -> (r: Result<String, RowError>)
    ensures
        old(row)@.len() == 0 ==> (r matches Err(RowError::Short)),
        old(row)@.len() > 0 && !(old(row)@[0] is String) ==> (r matches Err(RowError::Type(TypeError(v))) && v == old(row)@[0]),
        old(row)@.len() > 0 && old(row)@[0] is String ==> (r matches Ok(s) && s@ == old(row)@[0]->String_0@),
        r is Ok ==> final(row)@ == old(row)@.skip(1),
{
    match next_column(row) {
        Ok(v) => match v.string() {
            Ok(s) => Ok(s),
            Err(e) => Err(RowError::Type(e)),
        },
        Err(e) => Err(e),
    }
}

/// Reads a `page` or `redirect` row: `Ok(None)` for a page outside the main
/// namespace, else its id and title.
pub fn page_row(row: Vec<Value>) -> (r: Result<Option<(u32, String)>, RowError>)
    ensures
        !column_is(row@, 0, true) ==> fails_at(r, row@, 0),
        column_is(row@, 0, true) && !column_is(row@, 1, true) ==> fails_at(r, row@, 1),
        column_is(row@, 0, true) && column_is(row@, 1, true) ==> {
            &&& int_at(row@, 1) != 0 ==> (r matches Ok(None))
            &&& int_at(row@, 1) == 0 && !column_is(row@, 2, false) ==> fails_at(r, row@, 2)
            &&& int_at(row@, 1) == 0 && column_is(row@, 2, false) ==> keeps(r, row@, 0, 2)
        },
        decided(r, page_decision(value_lexemes(row@))),
{
    proof {
        lemma_lexemes_of(row@);
    }
    let ghost r0 = row@;
    let mut row = row;
    let id = match next_int(&mut row) {
        Ok(n) => n,
        Err(e) => return Err(e),
    };
    let ns = match next_int(&mut row) {
        Ok(n) => n,
        Err(e) => return Err(e),
    };
    if ns != 0 {
        return Ok(None);
    }
    let title = match next_string(&mut row) {
        Ok(s) => s,
        Err(e) => return Err(e),
    };
    Ok(Some((id as u32, title)))
}

/// Reads a `pagelinks` row: `Ok(None)` where the target or the source lies
/// outside the main namespace, else the source's id and the target's title.
pub fn link_row(row: Vec<Value>) -> (r: Result<Option<(u32, String)>, RowError>)
    ensures
        !column_is(row@, 0, true) ==> fails_at(r, row@, 0),
        column_is(row@, 0, true) && !column_is(row@, 1, true) ==> fails_at(r, row@, 1),
        column_is(row@, 0, true) && column_is(row@, 1, true) ==> {
            &&& int_at(row@, 1) != 0 ==> (r matches Ok(None))
            &&& int_at(row@, 1) == 0 && !column_is(row@, 2, false) ==> fails_at(r, row@, 2)
            &&& int_at(row@, 1) == 0 && column_is(row@, 2, false) && !column_is(row@, 3, true) ==> fails_at(r, row@, 3)
            &&& int_at(row@, 1) == 0 && column_is(row@, 2, false) && column_is(row@, 3, true) ==> {
                &&& int_at(row@, 3) != 0 ==> (r matches Ok(None))
                &&& int_at(row@, 3) == 0 ==> keeps(r, row@, 0, 2)
            }
        },
        decided(r, link_decision(value_lexemes(row@))),
{
    proof {
        lemma_lexemes_of(row@);
    }
    let mut row = row;
    let from = match next_int(&mut row) {
        Ok(n) => n,
        Err(e) => return Err(e),
    };
    let ns = match next_int(&mut row) {
        Ok(n) => n,
        Err(e) => return Err(e),
    };
    if ns != 0 {
        return Ok(None);
    }
    let title = match next_string(&mut row) {
        Ok(s) => s,
        Err(e) => return Err(e),
    };
    let from_ns = match next_int(&mut row) {
        Ok(n) => n,
        Err(e) => return Err(e),
    };
    if from_ns != 0 {
        return Ok(None);
    }
    Ok(Some((from as u32, title)))
}

} // verus!
