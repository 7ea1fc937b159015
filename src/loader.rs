//! Rows of the `INSERT` statements of a dump.
//!
//! The dump's text is fed line by line. The header, up to and including the
//! line that holds `DISABLE KEYS`, is skipped. After it the tokens are read by
//! this grammar, and each tuple is handed out as soon as the token after its
//! closing parenthesis has been read:
//!
//! ```text
//! insert_stmt := "INSERT" "INTO" <table> "VALUES" tuple ("," tuple)* ";"
//! tuple       := "(" value ("," value)* ")"
//! ```
//!
//! Other statements between them (`LOCK TABLES …;`, `/*!… */;` and the like)
//! are skipped up to their `;`. The end of the text between statements, or
//! inside such a skipped statement, ends the rows.
use vstd::prelude::*;

use crate::sql::{Lexeme, Scanned, Token, Tokenizer, TokenizerError, Value, lemma_scan_end, scan, utf8_chars};

verus! {

/// Why the rows could not be read.
#[derive(Debug)]
pub enum LoaderError {
    Tokenizer(TokenizerError),
    /// An unexpected token, and what was expected in its place.
    Syntax(Token, String),
    /// The stream ended inside a statement.
    EOF,
}

/// Where in the grammar the reader stands.
#[derive(Debug, Clone, Copy, PartialEq, Eq, Structural)]
pub enum Stage {
    /// Skipping the header.
    Header,
    /// Between statements: `INSERT`, another statement, or the end of the rows.
    Statement,
    /// Inside a statement other than `INSERT`, up to its `;`.
    Skip,
    Into,
    Table,
    Values,
    /// Before a tuple's `(`.
    Open,
    /// Before a value.
    Item,
    /// After a value: `,` or `)`.
    Separator,
    /// After a tuple: `,` or `;`.
    After,
    /// The rows have ended, or an error stopped them.
    Done,
}

pub open spec fn is_symbol(l: Lexeme, w: Seq<char>) -> bool {
    l == Lexeme::Symbol(w)
}

pub open spec fn is_value(l: Lexeme) -> bool {
    !(l is Symbol)
}

/// The stage after reading a token whose lexeme is `l` at `stage`.
pub open spec fn next_stage(stage: Stage, l: Lexeme) -> Stage {
    match stage {
        Stage::Statement => if is_symbol(l, seq!['I', 'N', 'S', 'E', 'R', 'T']) {
            Stage::Into
        } else if is_symbol(l, seq![';']) {
            Stage::Statement
        } else {
            Stage::Skip
        },
        Stage::Skip => if is_symbol(l, seq![';']) { Stage::Statement } else { Stage::Skip },
        Stage::Into => if is_symbol(l, seq!['I', 'N', 'T', 'O']) { Stage::Table } else { Stage::Done },
        Stage::Table => Stage::Values,
        Stage::Values => if is_symbol(l, seq!['V', 'A', 'L', 'U', 'E', 'S']) { Stage::Open } else { Stage::Done },
        Stage::Open => if is_symbol(l, seq!['(']) { Stage::Item } else { Stage::Done },
        Stage::Item => if is_value(l) { Stage::Separator } else { Stage::Done },
        Stage::Separator => if is_symbol(l, seq![',']) {
            Stage::Item
        } else if is_symbol(l, seq![')']) {
            Stage::After
        } else {
            Stage::Done
        },
        Stage::After => if is_symbol(l, seq![',']) {
            Stage::Open
        } else if is_symbol(l, seq![';']) {
            Stage::Statement
        } else {
            Stage::Done
        },
        _ => stage,
    }
}

/// Reading `l` at `stage` is a syntax error: the grammar allows no such token
/// there.
pub open spec fn rejects(stage: Stage, l: Lexeme) -> bool {
    next_stage(stage, l) == Stage::Done && stage != Stage::Done
}

/// What a syntax error at `stage` says was expected.
pub open spec fn expected_text(stage: Stage) -> Seq<char> {
    match stage {
        Stage::Into => "INTO"@,
        Stage::Values => "VALUES"@,
        Stage::Open => "`(`"@,
        Stage::Item => "a literal value"@,
        Stage::Separator => "`)` or `,`"@,
        _ => "`,` or `;`"@,
    }
}

/// Reading `l` at `stage` completes a tuple.
pub open spec fn completes(stage: Stage, l: Lexeme) -> bool {
    stage == Stage::After && (is_symbol(l, seq![',']) || is_symbol(l, seq![';']))
}

/// The lexeme of a value.
pub open spec fn value_lexeme(v: Value) -> Lexeme {
    Token::Value(v)@
}

pub open spec fn value_lexemes(vs: Seq<Value>) -> Seq<Lexeme> {
    vs.map_values(|v: Value| value_lexeme(v))
}

/// The values of the tuple being read, after reading `l` at `stage`.
pub open spec fn grow(stage: Stage, partial: Seq<Lexeme>, l: Lexeme) -> Seq<Lexeme> {
    if stage == Stage::Open {
        Seq::empty()
    } else if stage == Stage::Item && is_value(l) {
        partial.push(l)
    } else {
        partial
    }
}

/// Why reading stopped.
pub enum RowFail {
    Tokenizer(TokenizerError),
    /// The lexeme of the token that the grammar does not allow, and what was
    /// expected in its place.
    Syntax(Lexeme, Seq<char>),
    Eof,
}

/// What one request for a row gives.
pub enum RowScan {
    Row(Seq<Lexeme>),
    Fail(RowFail),
    /// The text ends inside a token or a tuple: more lines are needed.
    Pending,
    End,
}

/// Reading tokens of `s` from `stage` on, with `partial` read of the current
/// tuple, up to the first completed tuple: the outcome, the stage and the
/// partial tuple afterwards, and the number of characters consumed.
pub open spec fn read_row(stage: Stage, partial: Seq<Lexeme>, s: Seq<char>, eof: bool) -> (RowScan, Stage, Seq<Lexeme>, nat)
    decreases s.len(),
{
    if stage == Stage::Header || stage == Stage::Done {
        (RowScan::End, stage, partial, 0)
    } else {
        match scan(s, eof) {
            Scanned::Token(l, n) => if !(1 <= n <= s.len()) {
                (RowScan::End, stage, partial, 0)
            } else if rejects(stage, l) {
                (RowScan::Fail(RowFail::Syntax(l, expected_text(stage))), Stage::Done, grow(stage, partial, l), n)
            } else if completes(stage, l) {
                (RowScan::Row(partial), next_stage(stage, l), Seq::empty(), n)
            } else {
                let r = read_row(next_stage(stage, l), grow(stage, partial, l), s.skip(n as int), eof);
                (r.0, r.1, r.2, r.3 + n)
            },
            Scanned::Fail(e) => (RowScan::Fail(RowFail::Tokenizer(e)), stage, partial, 0),
            Scanned::More => (RowScan::Pending, stage, partial, 0),
            Scanned::End => if stage == Stage::Statement || stage == Stage::Skip {
                (RowScan::End, stage, partial, 0)
            } else {
                (RowScan::Fail(RowFail::Eof), Stage::Done, partial, 0)
            },
        }
    }
}

/// A completed row consumes text, and no more than there is.
pub proof fn lemma_read_row_progress(stage: Stage, partial: Seq<Lexeme>, s: Seq<char>, eof: bool)
    ensures
        read_row(stage, partial, s, eof).3 <= s.len(),
        read_row(stage, partial, s, eof).0 is Row ==> read_row(stage, partial, s, eof).3 >= 1,
    decreases s.len(),
{
    if !(stage == Stage::Header || stage == Stage::Done) {
        if let Scanned::Token(l, n) = scan(s, eof) {
            if 1 <= n <= s.len() && !rejects(stage, l) && !completes(stage, l) {
                lemma_read_row_progress(next_stage(stage, l), grow(stage, partial, l), s.skip(n as int), eof);
            }
        }
    }
}

/// Once reading stops for want of text or at the end of the rows, reading
/// again from where it stopped stops the same way.
pub proof fn lemma_read_row_settled(stage: Stage, partial: Seq<Lexeme>, s: Seq<char>, eof: bool)
    requires
        read_row(stage, partial, s, eof).0 is Pending || read_row(stage, partial, s, eof).0 is End,
    ensures
        ({
            let o = read_row(stage, partial, s, eof);
            read_row(o.1, o.2, s.skip(o.3 as int), eof).0 == o.0
        }),
    decreases s.len(),
{
    let o = read_row(stage, partial, s, eof);
    assert(s.skip(0) =~= s);
    if !(stage == Stage::Header || stage == Stage::Done) {
        if let Scanned::Token(l, n) = scan(s, eof) {
            if 1 <= n <= s.len() && !rejects(stage, l) && !completes(stage, l) {
                let t = s.skip(n as int);
                let r = read_row(next_stage(stage, l), grow(stage, partial, l), t, eof);
                lemma_read_row_settled(next_stage(stage, l), grow(stage, partial, l), t, eof);
                lemma_read_row_progress(next_stage(stage, l), grow(stage, partial, l), t, eof);
                assert(o.3 == r.3 + n);
                assert(t.skip(r.3 as int) =~= s.skip(o.3 as int));
            }
        }
    }
}

/// The rows read one after another from `stage` on, until reading stops for
/// want of text, at the end of the rows, or on an error; and how it stopped.
pub open spec fn rows_ahead(stage: Stage, partial: Seq<Lexeme>, s: Seq<char>, eof: bool) -> (Seq<Seq<Lexeme>>, RowScan)
    decreases s.len(),
{
    let o = read_row(stage, partial, s, eof);
    if o.0 is Row && 1 <= o.3 <= s.len() {
        let r = rows_ahead(o.1, o.2, s.skip(o.3 as int), eof);
        (seq![o.0->Row_0] + r.0, r.1)
    } else {
        (Seq::empty(), o.0)
    }
}

/// How the answer of `next_tuple` stands to the outcome `o`.
pub open spec fn gives(r: Result<Option<Vec<Value>>, LoaderError>, o: RowScan) -> bool {
    match o {
        RowScan::Row(ls) => r matches Ok(Some(v)) && value_lexemes(v@) == ls,
        RowScan::Fail(RowFail::Tokenizer(e)) => r matches Err(LoaderError::Tokenizer(e2)) && e2 == e,
        RowScan::Fail(RowFail::Syntax(l, x)) => r matches Err(LoaderError::Syntax(t, e)) && t@ == l && e@ == x,
        RowScan::Fail(RowFail::Eof) => r matches Err(LoaderError::EOF),
        _ => r matches Ok(None),
    }
}

/// The bytes of `DISABLE KEYS`.
pub open spec fn header_marker() -> Seq<u8> {
    seq![68u8, 73, 83, 65, 66, 76, 69, 32, 75, 69, 89, 83]
}

/// `line` holds `DISABLE KEYS`.
pub open spec fn ends_header(line: Seq<u8>) -> bool {
    exists|i: int| 0 <= i && i + 12 <= line.len() && #[trigger] line.subrange(i, i + 12) == header_marker()
}

/// Whether `line` holds `DISABLE KEYS`, the mark of the header's last line.
pub fn is_header_end(line: &[u8]) -> (r: bool)
    ensures
        r == ends_header(line@),
{
    let marker: Vec<u8> = vec![68u8, 73, 83, 65, 66, 76, 69, 32, 75, 69, 89, 83];
    assert(marker@ =~= header_marker());
    let n = line.len();
    if n < 12 {
        return false;
    }
    let mut i: usize = 0;
    while i <= n - 12
        invariant
            n == line@.len(),
            marker@ == header_marker(),
            line@.len() >= 12,
            i <= line@.len() - 11,
            forall|j: int| 0 <= j < i ==> #[trigger] line@.subrange(j, j + 12) != header_marker(),
        decreases n - i,
    {
        let mut k: usize = 0;
        while k < 12 && line[i + k] == marker[k]
            invariant
                n == line@.len(),
                marker@ == header_marker(),
                i + 12 <= line@.len(),
                k <= 12,
                forall|m: int| 0 <= m < k ==> line@[i + m] == marker@[m],
            decreases 12 - k,
        {
            k += 1;
        }
        if k == 12 {
            assert(line@.subrange(i as int, i + 12) =~= header_marker());
            return true;
        }
        assert(line@.subrange(i as int, i + 12)[k as int] != header_marker()[k as int]);
        i += 1;
    }
    assert forall|j: int| 0 <= j && j + 12 <= line@.len() implies #[trigger] line@.subrange(j, j + 12) != header_marker() by {
        assert(j < i);
    }
    false
}

/// The words of the grammar, made once.
struct Words {
    insert: String,
    into: String,
    values: String,
    open: String,
    close: String,
    comma: String,
    semicolon: String,
}

impl Words {
    spec fn wf(&self) -> bool {
        &&& self.insert@ == seq!['I', 'N', 'S', 'E', 'R', 'T']
        &&& self.into@ == seq!['I', 'N', 'T', 'O']
        &&& self.values@ == seq!['V', 'A', 'L', 'U', 'E', 'S']
        &&& self.open@ == seq!['(']
        &&& self.close@ == seq![')']
        &&& self.comma@ == seq![',']
        &&& self.semicolon@ == seq![';']
    }

    fn new() -> (r: Words)
        ensures
            r.wf(),
    {
        let r = Words {
            insert: "INSERT".to_owned(),
            into: "INTO".to_owned(),
            values: "VALUES".to_owned(),
            open: "(".to_owned(),
            close: ")".to_owned(),
            comma: ",".to_owned(),
            semicolon: ";".to_owned(),
        };
        proof {
            reveal_strlit("INSERT");
            reveal_strlit("INTO");
            reveal_strlit("VALUES");
            reveal_strlit("(");
            reveal_strlit(")");
            reveal_strlit(",");
            reveal_strlit(";");
        }
        assert(r.insert@ =~= seq!['I', 'N', 'S', 'E', 'R', 'T']);
        assert(r.into@ =~= seq!['I', 'N', 'T', 'O']);
        assert(r.values@ =~= seq!['V', 'A', 'L', 'U', 'E', 'S']);
        assert(r.open@ =~= seq!['(']);
        assert(r.close@ =~= seq![')']);
        assert(r.comma@ =~= seq![',']);
        assert(r.semicolon@ =~= seq![';']);
        r
    }
}

fn is_word(t: &Token, w: &String) -> (r: bool)
    ensures
        r == is_symbol(t@, w@),
{
    match t {
        Token::Symbol(s) => *s == *w,
        Token::Value(_) => false,
    }
}

/// A reader of the rows of one dump.
pub struct Loader {
    tokens: Tokenizer,
    stage: Stage,
    tuple: Vec<Value>,
    words: Words,
}

impl Loader {
    pub closed spec fn wf(&self) -> bool {
        self.tokens.wf() && self.words.wf()
    }

    /// The text fed after the header and not yet read.
    pub closed spec fn rest(&self) -> Seq<char> {
        self.tokens.rest()
    }

    pub closed spec fn finished(&self) -> bool {
        self.tokens.finished()
    }

    pub closed spec fn stage(&self) -> Stage {
        self.stage
    }

    /// No complete row is left to read: more lines are needed, or the rows
    /// have ended.
    pub open spec fn settled(&self) -> bool {
        let o = read_row(self.stage(), value_lexemes(self.partial()), self.rest(), self.finished());
        o.0 is Pending || o.0 is End
    }

    /// The rows that this reader yields before it stops, and how it stops.
    pub open spec fn ahead(&self) -> (Seq<Seq<Lexeme>>, RowScan) {
        rows_ahead(self.stage(), value_lexemes(self.partial()), self.rest(), self.finished())
    }

    /// The values read so far of the tuple being read.
    pub closed spec fn partial(&self) -> Seq<Value> {
        self.tuple@
    }

    /// A reader at the start of a dump.
    pub fn new() -> (r: Loader)
        ensures
            r.wf(),
            r.stage() == Stage::Header,
            r.rest() == Seq::<char>::empty(),
            r.partial() == Seq::<Value>::empty(),
            !r.finished(),
    {
        Loader { tokens: Tokenizer::new(), stage: Stage::Header, tuple: Vec::new(), words: Words::new() }
    }

    /// Feeds one line of the dump, its line break included. Header lines are
    /// dropped; the line that holds `DISABLE KEYS` is the last of them.
    pub fn feed_line(&mut self, line: &[u8]) -> (r: Result<(), LoaderError>)
        requires
            old(self).wf(),
        ensures
            final(self).wf(),
            final(self).finished() == old(self).finished(),
            final(self).partial() == old(self).partial(),
            old(self).stage() == Stage::Header ==> {
                &&& r is Ok
                &&& final(self).rest() == old(self).rest()
                &&& final(self).stage() == if ends_header(line@) { Stage::Statement } else { Stage::Header }
            },
            old(self).stage() != Stage::Header ==> {
                &&& final(self).stage() == old(self).stage()
                &&& match utf8_chars(line@) {
                    Some(cs) => r is Ok && final(self).rest() == old(self).rest() + cs,
                    None => r matches Err(LoaderError::Tokenizer(TokenizerError::InvalidUtf8))
                        && final(self).rest() == old(self).rest(),
                }
            },
    {
        if self.stage == Stage::Header {
            if is_header_end(line) {
                self.stage = Stage::Statement;
            }
            return Ok(());
        }
        match self.tokens.feed(line) {
            Ok(()) => Ok(()),
            Err(e) => Err(LoaderError::Tokenizer(e)),
        }
    }

    /// Marks the dump finished: no line follows.
    pub fn finish(&mut self)
        requires
            old(self).wf(),
        ensures
            final(self).wf(),
            final(self).finished(),
            final(self).rest() == old(self).rest(),
            final(self).stage() == old(self).stage(),
            final(self).partial() == old(self).partial(),
    {
        self.tokens.finish();
    }

    /// Reads one token at the current stage.
    fn step(&mut self, t: Token) -> (r: Result<Option<Vec<Value>>, LoaderError>)
        requires
            old(self).wf(),
            old(self).stage() != Stage::Header,
            old(self).stage() != Stage::Done,
        ensures
            final(self).wf(),
            final(self).rest() == old(self).rest(),
            final(self).finished() == old(self).finished(),
            final(self).stage() == next_stage(old(self).stage(), t@),
            rejects(old(self).stage(), t@) <==> r is Err,
            r matches Err(e) ==> e matches LoaderError::Syntax(u, x) && u == t && x@ == expected_text(old(self).stage()),
            completes(old(self).stage(), t@) ==> (r matches Ok(Some(v)) && v@ == old(self).partial()
                && final(self).partial() == Seq::<Value>::empty()),
            !completes(old(self).stage(), t@) && r is Ok ==> r matches Ok(None),
            old(self).stage() == Stage::Open ==> final(self).partial() == Seq::<Value>::empty(),
            old(self).stage() == Stage::Item ==> (t matches Token::Value(v) ==> final(self).partial()
                == old(self).partial().push(v)),
            old(self).stage() == Stage::Item && t is Symbol ==> final(self).partial() == old(self).partial(),
            old(self).stage() != Stage::Open && old(self).stage() != Stage::Item
                && !completes(old(self).stage(), t@) ==> final(self).partial() == old(self).partial(),
    {
        match self.stage {
            Stage::Statement => {
                if is_word(&t, &self.words.insert) {
                    self.stage = Stage::Into;
                } else if is_word(&t, &self.words.semicolon) {
                    self.stage = Stage::Statement;
                } else {
                    self.stage = Stage::Skip;
                }
                Ok(None)
            },
            Stage::Skip => {
                if is_word(&t, &self.words.semicolon) {
                    self.stage = Stage::Statement;
                }
                Ok(None)
            },
            Stage::Into => {
                if is_word(&t, &self.words.into) {
                    self.stage = Stage::Table;
                    Ok(None)
                } else {
                    self.stage = Stage::Done;
                    Err(LoaderError::Syntax(t, "INTO".to_owned()))
                }
            },
            Stage::Table => {
                self.stage = Stage::Values;
                Ok(None)
            },
            Stage::Values => {
                if is_word(&t, &self.words.values) {
                    self.stage = Stage::Open;
                    Ok(None)
                } else {
                    self.stage = Stage::Done;
                    Err(LoaderError::Syntax(t, "VALUES".to_owned()))
                }
            },
            Stage::Open => {
                self.tuple = Vec::new();
                if is_word(&t, &self.words.open) {
                    self.stage = Stage::Item;
                    Ok(None)
                } else {
                    self.stage = Stage::Done;
                    Err(LoaderError::Syntax(t, "`(`".to_owned()))
                }
            },
            Stage::Item => {
                match t {
                    Token::Value(v) => {
                        self.tuple.push(v);
                        self.stage = Stage::Separator;
                        Ok(None)
                    },
                    Token::Symbol(_) => {
                        self.stage = Stage::Done;
                        Err(LoaderError::Syntax(t, "a literal value".to_owned()))
                    },
                }
            },
            Stage::Separator => {
                if is_word(&t, &self.words.comma) {
                    self.stage = Stage::Item;
                    Ok(None)
                } else if is_word(&t, &self.words.close) {
                    self.stage = Stage::After;
                    Ok(None)
                } else {
                    self.stage = Stage::Done;
                    Err(LoaderError::Syntax(t, "`)` or `,`".to_owned()))
                }
            },
            Stage::After => {
                if is_word(&t, &self.words.comma) {
                    self.stage = Stage::Open;
                } else if is_word(&t, &self.words.semicolon) {
                    self.stage = Stage::Statement;
                } else {
                    self.stage = Stage::Done;
                    return Err(LoaderError::Syntax(t, "`,` or `;`".to_owned()));
                }
                let mut done: Vec<Value> = Vec::new();
                std::mem::swap(&mut done, &mut self.tuple);
                Ok(Some(done))
            },
            _ => Ok(None),
        }
    }

    /// The next row of the dump.
    ///
    /// `Ok(None)` means that the lines fed so far hold no further complete
    /// row (feed more), or, once the dump is finished, that the rows have
    /// ended. After an error other than the tokenizer's the reader stays ended.
    pub fn next_tuple(&mut self) -> (r: Result<Option<Vec<Value>>, LoaderError>)
        requires
            old(self).wf(),
        ensures
            final(self).wf(),
            final(self).finished() == old(self).finished(),
            ({
                let o = read_row(old(self).stage(), value_lexemes(old(self).partial()), old(self).rest(), old(self).finished());
                &&& gives(r, o.0)
                &&& final(self).stage() == o.1
                &&& value_lexemes(final(self).partial()) == o.2
                &&& final(self).rest() == old(self).rest().skip(o.3 as int)
            }),
    {
        let ghost s0 = self.rest();
        let ghost o = read_row(self.stage, value_lexemes(self.tuple@), s0, self.tokens.finished());
        let ghost mut used: nat = 0;
        assert(s0.skip(0) =~= s0);
        loop
            invariant
                self.wf(),
                self.tokens.finished() == old(self).finished(),
                self.rest() == s0.skip(used as int),
                s0 == old(self).rest(),
                o == read_row(old(self).stage(), value_lexemes(old(self).partial()), old(self).rest(), old(self).finished()),
                used <= s0.len(),
                ({
                    let c = read_row(self.stage, value_lexemes(self.tuple@), self.rest(), self.tokens.finished());
                    o == (c.0, c.1, c.2, c.3 + used)
                }),
            decreases self.rest().len(),
        {
            if self.stage == Stage::Header || self.stage == Stage::Done {
                return Ok(None);
            }
            let ghost before = self.rest();
            let ghost st = self.stage;
            let ghost p = value_lexemes(self.tuple@);
            match self.tokens.next_token() {
                Err(e) => {
                    return Err(LoaderError::Tokenizer(e));
                },
                Ok(None) => {
                    proof {
                        lemma_scan_end(before, self.tokens.finished());
                    }
                    if self.tokens.is_finished() && self.stage != Stage::Statement && self.stage != Stage::Skip {
                        self.stage = Stage::Done;
                        return Err(LoaderError::EOF);
                    }
                    return Ok(None);
                },
                Ok(Some(t)) => {
                    let ghost n = choose|n: nat| scan(before, self.tokens.finished()) == Scanned::Token(t@, n);
                    assert(self.rest() =~= s0.skip((used + n) as int));
                    proof {
                        if st == Stage::Item {
                            if let Token::Value(v) = &t {
                                assert(value_lexemes(self.tuple@.push(*v)) =~= p.push(t@));
                            }
                        }
                    }
                    let step = self.step(t);
                    proof {
                        if st == Stage::Open {
                            assert(value_lexemes(self.tuple@) =~= Seq::<Lexeme>::empty());
                        }
                        if completes(st, t@) {
                            assert(value_lexemes(self.tuple@) =~= Seq::<Lexeme>::empty());
                        }
                        used = used + n;
                    }
                    match step {
                        Err(e) => return Err(e),
                        Ok(Some(v)) => return Ok(Some(v)),
                        Ok(None) => {},
                    }
                },
            }
        }
    }
}

} // verus!
