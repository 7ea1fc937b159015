//! Streaming tokenizer for the MySQL dumps that Wikimedia publishes.
//!
//! The text arrives in chunks. A token is handed out only once the text after
//! it shows where it ends, or once the stream is marked finished; until then
//! `next_token` answers `Ok(None)` and consumes nothing.
//!
//! Between tokens, white space and comments are skipped: `--` and `#` up to
//! the end of the line, and `/*` up to the next `*/`.
use vstd::prelude::*;
use vstd::std_specs::iter::IteratorSpec;

verus! {

/// A literal value of a dump.
#[derive(Debug, PartialEq)]
pub enum Value {
    String(String),
    Integer(i64),
    /// A decimal number, kept as it was written (digits, `.`, digits).
    Float(String),
    Null,
}

/// A value that was not of the type asked for.
#[derive(Debug)]
pub struct TypeError(pub Value);

impl Value {
    /// The text of a string value.
    pub fn string(self) -> (r: Result<String, TypeError>)
        ensures
            match self {
                Value::String(s) => r == Ok::<String, TypeError>(s),
                _ => r matches Err(TypeError(v)) && v == self,
            },
    {
        match self {
            Value::String(s) => Ok(s),
            other => Err(TypeError(other)),
        }
    }

    /// The number of an integer value.
    pub fn integer(self) -> (r: Result<i64, TypeError>)
        ensures
            match self {
                Value::Integer(n) => r == Ok::<i64, TypeError>(n),
                _ => r matches Err(TypeError(v)) && v == self,
            },
    {
        match self {
            Value::Integer(n) => Ok(n),
            other => Err(TypeError(other)),
        }
    }
}

/// A token of the dump.
#[derive(Debug, PartialEq)]
pub enum Token {
    /// A keyword, a table name (backticks removed), or a punctuation character.
    Symbol(String),
    Value(Value),
}

/// Why the text could not be tokenized.
#[derive(Debug, PartialEq)]
pub enum TokenizerError {
    /// The bytes are not UTF-8.
    InvalidUtf8,
    /// An integer literal does not fit in 64 bits.
    ParseInt,
    /// The stream ended inside a quoted name, a string or a `/*` comment.
    Eof { expected: char },
    /// The stream ended right after a backslash inside a string.
    IncompleteString,
    /// A backslash inside a string was followed by this character.
    InvalidEscape(char),
}

/// What a token stands for.
pub enum Lexeme {
    Symbol(Seq<char>),
    Str(Seq<char>),
    Int(int),
    Float(Seq<char>),
    Null,
}

impl View for Token {
    type V = Lexeme;

    open spec fn view(&self) -> Lexeme {
        match self {
            Token::Symbol(s) => Lexeme::Symbol(s@),
            Token::Value(Value::String(s)) => Lexeme::Str(s@),
            Token::Value(Value::Integer(n)) => Lexeme::Int(*n as int),
            Token::Value(Value::Float(s)) => Lexeme::Float(s@),
            Token::Value(Value::Null) => Lexeme::Null,
        }
    }
}

/// The outcome of scanning for one token at the start of a text.
pub enum Scanned {
    /// A token, and how many characters it takes, leading white space and
    /// comments included.
    Token(Lexeme, nat),
    Fail(TokenizerError),
    /// The text ends before the token does; more text is needed.
    More,
    /// Nothing but white space and comments is left, and the stream is finished.
    End,
}

pub enum CharClass {
    Space,
    Digit,
    Alnum,
    NotBacktick,
    NotNewline,
}

pub open spec fn is_digit(c: char) -> bool {
    '0' <= c && c <= '9'
}

pub open spec fn is_alpha(c: char) -> bool {
    ('a' <= c && c <= 'z') || ('A' <= c && c <= 'Z')
}

/// ASCII white space as `char::is_ascii_whitespace` has it.
pub open spec fn is_space(c: char) -> bool {
    c == ' ' || c == '\t' || c == '\n' || c == '\x0C' || c == '\r'
}

pub open spec fn in_class(cl: CharClass, c: char) -> bool {
    match cl {
        CharClass::Space => is_space(c),
        CharClass::Digit => is_digit(c),
        CharClass::Alnum => is_digit(c) || is_alpha(c),
        CharClass::NotBacktick => c != '`',
        CharClass::NotNewline => c != '\n',
    }
}

/// The number of leading characters of `s` in the class.
pub open spec fn run(s: Seq<char>, cl: CharClass) -> nat
    decreases s.len(),
{
    if s.len() > 0 && in_class(cl, s[0]) {
        1 + run(s.skip(1), cl)
    } else {
        0
    }
}

pub open spec fn digit_of(c: char) -> nat {
    ((c as u32) - ('0' as u32)) as nat
}

/// The number that a string of decimal digits denotes.
pub open spec fn digits_value(d: Seq<char>) -> nat
    decreases d.len(),
{
    if d.len() == 0 {
        0
    } else {
        digits_value(d.drop_last()) * 10 + digit_of(d.last())
    }
}

pub open spec fn null_word() -> Seq<char> {
    seq!['N', 'U', 'L', 'L']
}

/// A number: an optional `-`, digits, then optionally `.` and more digits.
/// Without the `.` it is an integer, which must fit in 64 bits.
#[verifier::opaque]
pub open spec fn scan_number(t: Seq<char>, eof: bool) -> Scanned {
    let sign: nat = if t[0] == '-' { 1 } else { 0 };
    let e = sign + run(t.skip(sign as int), CharClass::Digit);
    if e == t.len() && !eof {
        Scanned::More
    } else if e < t.len() && t[e as int] == '.' {
        let f = e + 1 + run(t.skip((e + 1) as int), CharClass::Digit);
        if f == t.len() && !eof {
            Scanned::More
        } else {
            Scanned::Token(Lexeme::Float(t.take(f as int)), f)
        }
    } else {
        let m = digits_value(t.subrange(sign as int, e as int)) as int;
        let v = if sign == 1 { -m } else { m };
        if i64::MIN <= v <= i64::MAX {
            Scanned::Token(Lexeme::Int(v), e)
        } else {
            Scanned::Fail(TokenizerError::ParseInt)
        }
    }
}

/// A word of letters and digits; `NULL` is the null value.
pub open spec fn scan_word(t: Seq<char>, eof: bool) -> Scanned {
    let n = run(t, CharClass::Alnum);
    if n == t.len() && !eof {
        Scanned::More
    } else if t.take(n as int) == null_word() {
        Scanned::Token(Lexeme::Null, n)
    } else {
        Scanned::Token(Lexeme::Symbol(t.take(n as int)), n)
    }
}

/// A name between backticks.
pub open spec fn scan_quoted(t: Seq<char>, eof: bool) -> Scanned {
    let n = run(t.skip(1), CharClass::NotBacktick);
    if 1 + n == t.len() {
        if eof {
            Scanned::Fail(TokenizerError::Eof { expected: '`' })
        } else {
            Scanned::More
        }
    } else {
        Scanned::Token(Lexeme::Symbol(t.subrange(1, (1 + n) as int)), n + 2)
    }
}

/// Puts `c` in front of a scanned string that took `k` more characters.
pub open spec fn prepend(c: char, k: nat, r: Scanned) -> Scanned {
    match r {
        Scanned::Token(Lexeme::Str(v), n) => Scanned::Token(Lexeme::Str(seq![c] + v), n + k),
        _ => r,
    }
}

/// The body of a string literal after its opening quote: `\'`, `\\` and
/// `\"` stand for the escaped character, `''` for one quote, and a lone `'`
/// ends it.
pub open spec fn scan_literal(s: Seq<char>, eof: bool) -> Scanned
    decreases s.len(),
{
    if s.len() == 0 {
        if eof {
            Scanned::Fail(TokenizerError::Eof { expected: '\'' })
        } else {
            Scanned::More
        }
    } else if s[0] == '\\' {
        if s.len() == 1 {
            if eof {
                Scanned::Fail(TokenizerError::IncompleteString)
            } else {
                Scanned::More
            }
        } else if s[1] == '\'' || s[1] == '\\' || s[1] == '"' {
            prepend(s[1], 2, scan_literal(s.skip(2), eof))
        } else {
            Scanned::Fail(TokenizerError::InvalidEscape(s[1]))
        }
    } else if s[0] == '\'' {
        if s.len() == 1 {
            if eof {
                Scanned::Token(Lexeme::Str(Seq::empty()), 1)
            } else {
                Scanned::More
            }
        } else if s[1] == '\'' {
            prepend('\'', 2, scan_literal(s.skip(2), eof))
        } else {
            Scanned::Token(Lexeme::Str(Seq::empty()), 1)
        }
    } else {
        prepend(s[0], 1, scan_literal(s.skip(1), eof))
    }
}

pub open spec fn scan_string(t: Seq<char>, eof: bool) -> Scanned {
    match scan_literal(t.skip(1), eof) {
        Scanned::Token(l, n) => Scanned::Token(l, n + 1),
        r => r,
    }
}

/// The token at the very start of a non-empty text.
pub open spec fn scan_token(t: Seq<char>, eof: bool) -> Scanned {
    let c = t[0];
    if is_digit(c) || (c == '-' && t.len() > 1 && is_digit(t[1])) {
        scan_number(t, eof)
    } else if c == '-' && t.len() == 1 && !eof {
        Scanned::More
    } else if is_alpha(c) {
        scan_word(t, eof)
    } else if c == '`' {
        scan_quoted(t, eof)
    } else if c == '\'' {
        scan_string(t, eof)
    } else {
        Scanned::Token(Lexeme::Symbol(seq![c]), 1)
    }
}

/// A comment to the end of the line starts `s`: `--` or `#`.
pub open spec fn line_comment_at(s: Seq<char>) -> bool {
    (s.len() >= 1 && s[0] == '#') || (s.len() >= 2 && s[0] == '-' && s[1] == '-')
}

/// A comment up to `*/` starts `s`.
pub open spec fn block_comment_at(s: Seq<char>) -> bool {
    s.len() >= 2 && s[0] == '/' && s[1] == '*'
}

/// The position just after the first `*/` that starts at `i` or later.
pub open spec fn block_end(s: Seq<char>, i: int) -> Option<int>
    decreases s.len() - i,
{
    if i < 0 || i + 1 >= s.len() {
        None
    } else if s[i] == '*' && s[i + 1] == '/' {
        Some(i + 2)
    } else {
        block_end(s, i + 1)
    }
}

/// What lies between tokens at the start of a text.
pub enum Gap {
    /// White space and comments of this length.
    Len(nat),
    /// The text ends where more of the gap could follow.
    More,
    /// The stream ends inside a `/*` comment.
    Open,
}

pub open spec fn widen(k: nat, g: Gap) -> Gap {
    match g {
        Gap::Len(n) => Gap::Len(n + k),
        _ => g,
    }
}

/// The white space and comments that start `s`.
pub open spec fn gap(s: Seq<char>, eof: bool) -> Gap
    decreases s.len(),
{
    if s.len() == 0 {
        Gap::Len(0)
    } else if is_space(s[0]) {
        widen(1, gap(s.skip(1), eof))
    } else if line_comment_at(s) {
        let n = run(s, CharClass::NotNewline);
        if n >= s.len() {
            if eof { Gap::Len(s.len()) } else { Gap::More }
        } else {
            widen(n + 1, gap(s.skip((n + 1) as int), eof))
        }
    } else if block_comment_at(s) {
        match block_end(s, 2) {
            Some(e) => if 2 <= e <= s.len() { widen(e as nat, gap(s.skip(e), eof)) } else { Gap::Len(0) },
            None => if eof { Gap::Open } else { Gap::More },
        }
    } else if s.len() == 1 && (s[0] == '-' || s[0] == '/') && !eof {
        Gap::More
    } else {
        Gap::Len(0)
    }
}

/// The first token of `s` after white space and comments; `eof` says that no
/// text follows `s`.
pub open spec fn scan(s: Seq<char>, eof: bool) -> Scanned {
    match gap(s, eof) {
        Gap::More => Scanned::More,
        Gap::Open => Scanned::Fail(TokenizerError::Eof { expected: '/' }),
        Gap::Len(w) => if w >= s.len() {
            if eof {
                Scanned::End
            } else {
                Scanned::More
            }
        } else {
            match scan_token(s.skip(w as int), eof) {
                Scanned::Token(l, n) => Scanned::Token(l, n + w),
                r => r,
            }
        },
    }
}


/// How a helper's answer stands to the outcome `s` of scanning.
pub open spec fn answers(r: Result<Option<(Token, usize)>, TokenizerError>, s: Scanned) -> bool {
    match s {
        Scanned::Token(l, n) => r matches Ok(Some(p)) && p.0@ == l && p.1 == n,
        Scanned::Fail(e) => r == Err::<Option<(Token, usize)>, TokenizerError>(e),
        _ => r matches Ok(None),
    }
}

/// `a` put in front of a scanned string that took `k` more characters.
pub open spec fn prefixed(a: Seq<char>, k: nat, r: Scanned) -> Scanned {
    match r {
        Scanned::Token(Lexeme::Str(v), n) => Scanned::Token(Lexeme::Str(a + v), n + k),
        _ => r,
    }
}

proof fn lemma_prefixed_push(a: Seq<char>, c: char, m: nat, k: nat, r: Scanned)
    ensures
        prefixed(a, m, prepend(c, k, r)) == prefixed(a.push(c), m + k, r),
{
    if let Scanned::Token(Lexeme::Str(v), n) = r {
        assert(a + (seq![c] + v) =~= a.push(c) + v);
    }
}

proof fn lemma_run<'a>(s: Seq<char>, cl: CharClass)
    ensures
        run(s, cl) <= s.len(),
        forall|k: int| 0 <= k < run(s, cl) ==> in_class(cl, #[trigger] s[k]),
        run(s, cl) < s.len() ==> !in_class(cl, s[run(s, cl) as int]),
    decreases s.len(),
{
    if s.len() > 0 && in_class(cl, s[0]) {
        lemma_run(s.skip(1), cl);
        assert forall|k: int| 0 <= k < run(s, cl) implies in_class(cl, #[trigger] s[k]) by {
            if k > 0 {
                assert(s[k] == s.skip(1)[k - 1]);
            }
        }
    }
}

pub(crate) proof fn lemma_digits_step(s: Seq<char>, a: int, k: int)
    requires
        0 <= a <= k < s.len(),
    ensures
        digits_value(s.subrange(a, k + 1)) == digits_value(s.subrange(a, k)) * 10 + digit_of(s[k]),
{
    assert(s.subrange(a, k + 1).drop_last() =~= s.subrange(a, k));
}

pub(crate) proof fn lemma_digits_grow(s: Seq<char>, a: int, k: int, b: int)
    requires
        0 <= a <= k <= b <= s.len(),
    ensures
        digits_value(s.subrange(a, k)) <= digits_value(s.subrange(a, b)),
    decreases b - k,
{
    if k < b {
        lemma_digits_grow(s, a, k, b - 1);
        lemma_digits_step(s, a, b - 1);
    }
}

fn class_has(cl: &CharClass, c: char) -> (b: bool)
    ensures
        b == in_class(*cl, c),
{
    match cl {
        CharClass::Space => c == ' ' || c == '\t' || c == '\n' || c == '\x0C' || c == '\r',
        CharClass::Digit => '0' <= c && c <= '9',
        CharClass::Alnum => ('0' <= c && c <= '9') || ('a' <= c && c <= 'z') || ('A' <= c && c <= 'Z'),
        CharClass::NotBacktick => c != '`',
        CharClass::NotNewline => c != '\n',
    }
}

/// The number of characters of the class from `from` on.
fn run_len(chars: &Vec<char>, from: usize, cl: &CharClass) -> (n: usize)
    requires
        from <= chars@.len(),
    ensures
        n == run(chars@.skip(from as int), *cl),
        from + n <= chars@.len(),
{
    let mut i: usize = from;
    while i < chars.len() && class_has(cl, chars[i])
        invariant
            from <= i <= chars@.len(),
            run(chars@.skip(from as int), *cl) == (i - from) + run(chars@.skip(i as int), *cl),
        decreases chars.len() - i,
    {
        assert(chars@.skip(i as int).skip(1) =~= chars@.skip(i + 1));
        i += 1;
    }
    i - from
}

/// Relies on `String`'s `FromIterator<char>`: the characters, in order.
#[verifier::external_body]
pub(crate) fn string_of(chars: &[char]) -> (r: String)
    ensures
        r@ == chars@,
{
    chars.iter().collect()
}

/// The characters of `s`.
pub(crate) fn chars_of(s: &str) -> (r: Vec<char>)
    ensures
        r@ == s@,
{
    broadcast use vstd::string::group_string_axioms;

    let mut it = s.chars();
    let mut r: Vec<char> = Vec::new();
    assert(it.remaining() == s@);
    loop
        invariant
            r@ + it.remaining() == s@,
            it.obeys_prophetic_iter_laws(),
            it.decrease() is Some,
        decreases it.decrease()->0,
    {
        let ghost before = it.remaining();
        match it.next() {
            Some(c) => {
                assert(before.len() > 0);
                assert(r@.push(c) + it.remaining() =~= r@ + before);
                r.push(c);
            },
            None => {
                assert(r@ + it.remaining() =~= r@);
                return r;
            },
        }
    }
}

/// The characters from `a` up to `b` as a string.
fn text(chars: &Vec<char>, a: usize, b: usize) -> (r: String)
    requires
        a <= b <= chars@.len(),
    ensures
        r@ == chars@.subrange(a as int, b as int),
{
    let mut v: Vec<char> = Vec::new();
    let mut i: usize = a;
    while i < b
        invariant
            a <= i <= b,
            b <= chars@.len(),
            v@ == chars@.subrange(a as int, i as int),
        decreases b - i,
    {
        v.push(chars[i]);
        assert(v@ =~= chars@.subrange(a as int, i + 1));
        i += 1;
    }
    string_of(v.as_slice())
}

/// The value of the digits from `a` up to `b`, negated if `neg`, where it
/// fits in 64 bits.
fn parse_i64(chars: &Vec<char>, a: usize, b: usize, neg: bool) -> (r: Option<i64>)
    requires
        a <= b <= chars@.len(),
        forall|k: int| a <= k < b ==> is_digit(#[trigger] chars@[k]),
    ensures
        ({
            let m = digits_value(chars@.subrange(a as int, b as int)) as int;
            let v = if neg { -m } else { m };
            &&& r is Some <==> i64::MIN <= v <= i64::MAX
            &&& r matches Some(x) ==> x == v
        }),
{
    let mut mag: u64 = 0;
    let mut k: usize = a;
    while k < b
        invariant
            a <= k <= b,
            b <= chars@.len(),
            forall|j: int| a <= j < b ==> is_digit(#[trigger] chars@[j]),
            mag == digits_value(chars@.subrange(a as int, k as int)),
            mag <= 0x8000_0000_0000_0000u64,
        decreases b - k,
    {
        let c = chars[k];
        assert(is_digit(chars@[k as int]));
        let d = ((c as u32) - ('0' as u32)) as u64;
        proof {
            lemma_digits_step(chars@, a as int, k as int);
        }
        if mag > 922_337_203_685_477_580u64 || (mag == 922_337_203_685_477_580u64 && d > 8) {
            proof {
                lemma_digits_grow(chars@, a as int, k + 1, b as int);
            }
            return None;
        }
        mag = mag * 10 + d;
        k += 1;
    }
    if neg {
        if mag == 0x8000_0000_0000_0000u64 {
            Some(i64::MIN)
        } else {
            Some(-(mag as i64))
        }
    } else if mag > 0x7fff_ffff_ffff_ffffu64 {
        None
    } else {
        Some(mag as i64)
    }
}

/// Relies on `utf8_decode::Decoder`, run over the bytes and stopped at the
/// first sequence that is not UTF-8. The characters depend on the bytes alone.
pub uninterp spec fn utf8_chars(b: Seq<u8>) -> Option<Seq<char>>;

/// Relies on `utf8_decode::Decoder`: the characters that the bytes encode, or
/// `None` where a sequence of them is not UTF-8.
#[verifier::external_body]
fn decode_utf8(bytes: &[u8]) -> (r: Option<Vec<char>>)
    ensures
        r matches Some(v) ==> utf8_chars(bytes@) == Some(v@),
        r is None ==> utf8_chars(bytes@) is None,
{
    utf8_decode::Decoder::new(bytes.iter().cloned()).collect::<Result<Vec<char>, _>>().ok()
}

/// A tokenizer over text that arrives in chunks.
pub struct Tokenizer {
    chars: Vec<char>,
    pos: usize,
    finished: bool,
}

impl Tokenizer {
    pub closed spec fn wf(&self) -> bool {
        self.pos <= self.chars@.len()
    }

    /// The text fed and not yet consumed.
    pub closed spec fn rest(&self) -> Seq<char> {
        self.chars@.skip(self.pos as int)
    }

    /// Whether the stream was marked finished: no text will follow.
    pub closed spec fn finished(&self) -> bool {
        self.finished
    }

    /// A tokenizer that has been fed nothing yet.
    pub fn new() -> (r: Tokenizer)
        ensures
            r.wf(),
            r.rest() == Seq::<char>::empty(),
            !r.finished(),
    {
        let r = Tokenizer { chars: Vec::new(), pos: 0, finished: false };
        assert(r.rest() =~= Seq::<char>::empty());
        r
    }

    /// Appends the characters that `bytes` encode in UTF-8 to the text.
    /// The chunk must end at a character boundary.
    pub fn feed(&mut self, bytes: &[u8]) -> (r: Result<(), TokenizerError>)
        requires
            old(self).wf(),
        ensures
            final(self).wf(),
            final(self).finished() == old(self).finished(),
            match utf8_chars(bytes@) {
                Some(cs) => r is Ok && final(self).rest() == old(self).rest() + cs,
                None => r == Err::<(), TokenizerError>(TokenizerError::InvalidUtf8)
                    && final(self).rest() == old(self).rest(),
            },
    {
        let decoded = match decode_utf8(bytes) {
            Some(d) => d,
            None => return Err(TokenizerError::InvalidUtf8),
        };
        let mut chars: Vec<char> = Vec::new();
        let mut i: usize = self.pos;
        while i < self.chars.len()
            invariant
                self.pos <= i <= self.chars@.len(),
                chars@ == self.chars@.subrange(self.pos as int, i as int),
            decreases self.chars.len() - i,
        {
            chars.push(self.chars[i]);
            assert(chars@ =~= self.chars@.subrange(self.pos as int, i + 1));
            i += 1;
        }
        let mut j: usize = 0;
        while j < decoded.len()
            invariant
                j <= decoded@.len(),
                chars@ == self.chars@.skip(self.pos as int) + decoded@.take(j as int),
            decreases decoded.len() - j,
        {
            chars.push(decoded[j]);
            assert(chars@ =~= self.chars@.skip(self.pos as int) + decoded@.take(j + 1));
            j += 1;
        }
        assert(decoded@.take(j as int) =~= decoded@);
        self.chars = chars;
        self.pos = 0;
        assert(self.chars@.skip(0) =~= self.chars@);
        Ok(())
    }

    /// Marks the stream finished: the text fed so far is all there is.
    pub fn finish(&mut self)
        requires
            old(self).wf(),
        ensures
            final(self).wf(),
            final(self).rest() == old(self).rest(),
            final(self).finished(),
    {
        self.finished = true;
    }

    pub fn is_finished(&self) -> (r: bool)
        ensures
            r == self.finished(),
    {
        self.finished
    }

    /// The position after the white space and comments from `from` on;
    /// `Ok(None)` where the text ends before the gap does.
    #[verifier::rlimit(80)]
    fn skip_gap(&self, from: usize) -> (r: Result<Option<usize>, TokenizerError>)
        requires
            self.wf(),
            from <= self.chars@.len(),
        ensures
            match gap(self.chars@.skip(from as int), self.finished) {
                Gap::Len(w) => r == Ok::<Option<usize>, TokenizerError>(Some((from + w) as usize))
                    && from + w <= self.chars@.len(),
                Gap::More => r == Ok::<Option<usize>, TokenizerError>(None),
                Gap::Open => r == Err::<Option<usize>, TokenizerError>(TokenizerError::Eof { expected: '/' }),
            },
    {
        let len = self.chars.len();
        let ghost eof = self.finished;
        let mut i = from;
        assert(self.chars@.skip(from as int).skip(0) =~= self.chars@.skip(from as int));
        loop
            invariant
                self.wf(),
                len == self.chars@.len(),
                eof == self.finished,
                from <= i <= len,
                gap(self.chars@.skip(from as int), eof) == widen((i - from) as nat, gap(self.chars@.skip(i as int), eof)),
            decreases len - i,
        {
            let ghost t = self.chars@.skip(i as int);
            if i == len {
                return Ok(Some(i));
            }
            let c = self.chars[i];
            if c == ' ' || c == '\t' || c == '\n' || c == '\x0C' || c == '\r' {
                assert(t.skip(1) =~= self.chars@.skip(i + 1));
                i += 1;
            } else if c == '#' || (c == '-' && i + 1 < len && self.chars[i + 1] == '-') {
                let n = run_len(&self.chars, i, &CharClass::NotNewline);
                proof {
                    lemma_run(t, CharClass::NotNewline);
                }
                if i + n == len {
                    if self.finished {
                        return Ok(Some(len));
                    } else {
                        return Ok(None);
                    }
                }
                assert(t.skip(n + 1) =~= self.chars@.skip(i + n + 1));
                i = i + n + 1;
            } else if c == '/' && i + 1 < len && self.chars[i + 1] == '*' {
                let mut j = i + 2;
                assert(block_end(t, 2) == block_end(t, j - i));
                while j < len - 1 && !(self.chars[j] == '*' && self.chars[j + 1] == '/')
                    invariant
                        len == self.chars@.len(),
                        i + 2 <= j <= len,
                        i < len,
                        t == self.chars@.skip(i as int),
                        block_end(t, 2) == block_end(t, j - i),
                    decreases len - j,
                {
                    j += 1;
                }
                if j >= len - 1 {
                    assert(block_end(t, j - i) is None);
                    if self.finished {
                        return Err(TokenizerError::Eof { expected: '/' });
                    } else {
                        return Ok(None);
                    }
                }
                assert(block_end(t, j - i) == Some(j + 2 - i));
                assert(t.skip(j + 2 - i) =~= self.chars@.skip(j + 2));
                i = j + 2;
            } else if i + 1 == len && (c == '-' || c == '/') && !self.finished {
                return Ok(None);
            } else {
                return Ok(Some(i));
            }
        }
    }

    fn scan_number(&self, start: usize) -> (r: Result<Option<(Token, usize)>, TokenizerError>)
        requires
            self.wf(),
            start < self.chars@.len(),
            is_digit(self.chars@[start as int]) || (self.chars@[start as int] == '-'
                && start + 1 < self.chars@.len() && is_digit(self.chars@[start + 1])),
        ensures
            answers(r, scan_number(self.chars@.skip(start as int), self.finished)),
            r matches Ok(Some(p)) ==> 1 <= p.1 <= self.chars@.len() - start,
    {
        let ghost t = self.chars@.skip(start as int);
        let ghost eof = self.finished;
        let len = self.chars.len();
        let neg = self.chars[start] == '-';
        let ds = if neg { start + 1 } else { start };
        let d = run_len(&self.chars, ds, &CharClass::Digit);
        let e = ds + d;
        let ghost sign: nat = if t[0] == '-' { 1 } else { 0 };
        assert(sign == ds - start);
        assert(t.skip(sign as int) =~= self.chars@.skip(ds as int));
        assert(e - start == sign + run(t.skip(sign as int), CharClass::Digit));
        proof {
            lemma_run(self.chars@.skip(ds as int), CharClass::Digit);
        }
        if e == len && !self.finished {
            assert(scan_number(t, eof) == Scanned::More) by {
                reveal(scan_number);
            }
            return Ok(None);
        }
        if e < len && self.chars[e] == '.' {
            let f = run_len(&self.chars, e + 1, &CharClass::Digit);
            let fe = e + 1 + f;
            assert(t.skip((e + 1 - start) as int) =~= self.chars@.skip(e + 1));
            if fe == len && !self.finished {
                assert(scan_number(t, eof) == Scanned::More) by {
                    reveal(scan_number);
                }
                return Ok(None);
            }
            let s = text(&self.chars, start, fe);
            assert(s@ =~= t.take((fe - start) as int));
            assert(scan_number(t, eof) == Scanned::Token(Lexeme::Float(s@), (fe - start) as nat)) by {
                reveal(scan_number);
            }
            return Ok(Some((Token::Value(Value::Float(s)), fe - start)));
        }
        assert forall|k: int| ds <= k < e implies is_digit(#[trigger] self.chars@[k]) by {
            assert(self.chars@[k] == self.chars@.skip(ds as int)[k - ds]);
        }
        assert(t.subrange(sign as int, (e - start) as int) =~= self.chars@.subrange(ds as int, e as int));
        let ghost m = digits_value(self.chars@.subrange(ds as int, e as int)) as int;
        let ghost v = if neg { -m } else { m };
        let parsed = parse_i64(&self.chars, ds, e, neg);
        assert(scan_number(t, eof) == if i64::MIN <= v <= i64::MAX {
            Scanned::Token(Lexeme::Int(v), (e - start) as nat)
        } else {
            Scanned::Fail(TokenizerError::ParseInt)
        }) by {
            reveal(scan_number);
        }
        match parsed {
            Some(v) => Ok(Some((Token::Value(Value::Integer(v)), e - start))),
            None => Err(TokenizerError::ParseInt),
        }
    }

    fn scan_word(&self, start: usize) -> (r: Result<Option<(Token, usize)>, TokenizerError>)
        requires
            self.wf(),
            start < self.chars@.len(),
            is_alpha(self.chars@[start as int]),
        ensures
            answers(r, scan_word(self.chars@.skip(start as int), self.finished)),
            r matches Ok(Some(p)) ==> 1 <= p.1 <= self.chars@.len() - start,
    {
        let ghost t = self.chars@.skip(start as int);
        let len = self.chars.len();
        let n = run_len(&self.chars, start, &CharClass::Alnum);
        let e = start + n;
        proof {
            lemma_run(t, CharClass::Alnum);
            reveal_with_fuel(run, 2);
        }
        if e == self.chars.len() && !self.finished {
            return Ok(None);
        }
        let is_null = n == 4 && self.chars[start] == 'N' && self.chars[start + 1] == 'U'
            && self.chars[start + 2] == 'L' && self.chars[start + 3] == 'L';
        if is_null {
            assert(t.take(n as int) =~= null_word());
            Ok(Some((Token::Value(Value::Null), n)))
        } else {
            proof {
                if t.take(n as int) == null_word() {
                    assert(t.take(n as int)[0] == null_word()[0]);
                    assert(t.take(n as int)[1] == null_word()[1]);
                    assert(t.take(n as int)[2] == null_word()[2]);
                    assert(t.take(n as int)[3] == null_word()[3]);
                }
            }
            let s = text(&self.chars, start, e);
            assert(s@ =~= t.take(n as int));
            Ok(Some((Token::Symbol(s), n)))
        }
    }

    fn scan_quoted(&self, start: usize) -> (r: Result<Option<(Token, usize)>, TokenizerError>)
        requires
            self.wf(),
            start < self.chars@.len(),
            self.chars@[start as int] == '`',
        ensures
            answers(r, scan_quoted(self.chars@.skip(start as int), self.finished)),
            r matches Ok(Some(p)) ==> 1 <= p.1 <= self.chars@.len() - start,
    {
        let ghost t = self.chars@.skip(start as int);
        let len = self.chars.len();
        let n = run_len(&self.chars, start + 1, &CharClass::NotBacktick);
        let e = start + 1 + n;
        assert(t.skip(1) =~= self.chars@.skip(start + 1));
        if e == self.chars.len() {
            if self.finished {
                return Err(TokenizerError::Eof { expected: '`' });
            } else {
                return Ok(None);
            }
        }
        let s = text(&self.chars, start + 1, e);
        assert(s@ =~= t.subrange(1, (1 + n) as int));
        Ok(Some((Token::Symbol(s), n + 2)))
    }

    fn scan_string(&self, start: usize) -> (r: Result<Option<(Token, usize)>, TokenizerError>)
        requires
            self.wf(),
            start < self.chars@.len(),
            self.chars@[start as int] == '\'',
        ensures
            answers(r, scan_string(self.chars@.skip(start as int), self.finished)),
            r matches Ok(Some(p)) ==> 1 <= p.1 <= self.chars@.len() - start,
    {
        let ghost t = self.chars@.skip(start as int);
        let ghost eof = self.finished;
        let len = self.chars.len();
        assert(t.skip(1) =~= self.chars@.skip(start + 1));
        let mut acc: Vec<char> = Vec::new();
        let mut i: usize = start + 1;
        assert(prefixed(acc@, 0, scan_literal(self.chars@.skip(i as int), eof)) == scan_literal(t.skip(1), eof)) by {
            if let Scanned::Token(Lexeme::Str(v), n) = scan_literal(t.skip(1), eof) {
                assert(Seq::<char>::empty() + v =~= v);
            }
        }
        loop
            invariant
                self.wf(),
                eof == self.finished,
                t == self.chars@.skip(start as int),
                len == self.chars@.len(),
                start + 1 <= i <= self.chars@.len(),
                scan_literal(t.skip(1), eof) == prefixed(acc@, (i - start - 1) as nat, scan_literal(self.chars@.skip(i as int), eof)),
            decreases self.chars@.len() - i,
        {
            let ghost s = self.chars@.skip(i as int);
            if i == self.chars.len() {
                assert(s.len() == 0);
                if self.finished {
                    assert(scan_literal(s, eof) == Scanned::Fail(TokenizerError::Eof { expected: '\'' }));
                    return Err(TokenizerError::Eof { expected: '\'' });
                } else {
                    return Ok(None);
                }
            }
            let c = self.chars[i];
            if c == '\\' {
                if i + 1 == self.chars.len() {
                    assert(s.len() == 1);
                    if self.finished {
                        assert(scan_literal(s, eof) == Scanned::Fail(TokenizerError::IncompleteString));
                        return Err(TokenizerError::IncompleteString);
                    } else {
                        return Ok(None);
                    }
                }
                let d = self.chars[i + 1];
                if d == '\'' || d == '\\' || d == '"' {
                    proof {
                        assert(s.skip(2) =~= self.chars@.skip(i + 2));
                        lemma_prefixed_push(acc@, d, (i - start - 1) as nat, 2, scan_literal(s.skip(2), eof));
                    }
                    acc.push(d);
                    i += 2;
                } else {
                    assert(scan_literal(s, eof) == Scanned::Fail(TokenizerError::InvalidEscape(d)));
                    return Err(TokenizerError::InvalidEscape(d));
                }
            } else if c == '\'' {
                if i + 1 == self.chars.len() && !self.finished {
                    return Ok(None);
                }
                if i + 1 < self.chars.len() && self.chars[i + 1] == '\'' {
                    proof {
                        assert(s.skip(2) =~= self.chars@.skip(i + 2));
                        lemma_prefixed_push(acc@, '\'', (i - start - 1) as nat, 2, scan_literal(s.skip(2), eof));
                    }
                    acc.push('\'');
                    i += 2;
                } else {
                    let v = string_of(acc.as_slice());
                    assert(scan_literal(s, eof) == Scanned::Token(Lexeme::Str(Seq::empty()), 1));
                    assert(acc@ + Seq::<char>::empty() =~= acc@);
                    return Ok(Some((Token::Value(Value::String(v)), i + 1 - start)));
                }
            } else {
                proof {
                    assert(s.skip(1) =~= self.chars@.skip(i + 1));
                    lemma_prefixed_push(acc@, c, (i - start - 1) as nat, 1, scan_literal(s.skip(1), eof));
                }
                acc.push(c);
                i += 1;
            }
        }
    }

    /// The next token of the text.
    ///
    /// `Ok(None)` means that no complete token is there yet (feed more text)
    /// or, once the stream is finished, that the text is used up. An error
    /// leaves the text as it was, so that asking again gives it again.
    pub fn next_token(&mut self) -> (r: Result<Option<Token>, TokenizerError>)
        requires
            old(self).wf(),
        ensures
            final(self).wf(),
            final(self).finished() == old(self).finished(),
            match scan(old(self).rest(), old(self).finished()) {
                Scanned::Token(l, n) => r matches Ok(Some(t)) && t@ == l && 1 <= n <= old(self).rest().len()
                    && final(self).rest() == old(self).rest().skip(n as int),
                Scanned::Fail(e) => r == Err::<Option<Token>, TokenizerError>(e)
                    && final(self).rest() == old(self).rest(),
                _ => r matches Ok(None) && final(self).rest() == old(self).rest(),
            },
    {
        let ghost rest = self.rest();
        let len = self.chars.len();
        let start = match self.skip_gap(self.pos) {
            Ok(Some(start)) => start,
            Ok(None) => return Ok(None),
            Err(e) => return Err(e),
        };
        let ghost w = (start - self.pos) as nat;
        assert(rest.skip(w as int) =~= self.chars@.skip(start as int));
        if start == self.chars.len() {
            return Ok(None);
        }
        let c = self.chars[start];
        let found = if ('0' <= c && c <= '9') || (c == '-' && start + 1 < self.chars.len()
            && '0' <= self.chars[start + 1] && self.chars[start + 1] <= '9') {
            self.scan_number(start)
        } else if c == '-' && start + 1 == self.chars.len() && !self.finished {
            Ok(None)
        } else if ('a' <= c && c <= 'z') || ('A' <= c && c <= 'Z') {
            self.scan_word(start)
        } else if c == '`' {
            self.scan_quoted(start)
        } else if c == '\'' {
            self.scan_string(start)
        } else {
            let v = vec![c];
            let s = string_of(v.as_slice());
            assert(s@ =~= seq![c]);
            Ok(Some((Token::Symbol(s), 1)))
        };
        match found {
            Ok(Some((tok, n))) => {
                self.pos = start + n;
                assert(self.chars@.skip(self.pos as int) =~= rest.skip(w + n));
                Ok(Some(tok))
            },
            Ok(None) => Ok(None),
            Err(e) => Err(e),
        }
    }
}


proof fn lemma_literal_not_end(s: Seq<char>, eof: bool)
    ensures
        !(scan_literal(s, eof) is End),
        eof ==> !(scan_literal(s, eof) is More),
    decreases s.len(),
{
    if s.len() >= 1 {
        lemma_literal_not_end(s.skip(1), eof);
    }
    if s.len() >= 2 {
        lemma_literal_not_end(s.skip(2), eof);
    }
}

/// Only a finished text can be at its end.
pub proof fn lemma_scan_end(s: Seq<char>, eof: bool)
    ensures
        scan(s, eof) is End ==> eof,
        eof ==> !(scan(s, eof) is More),
{
    reveal(scan_number);
    lemma_gap_finished(s, eof);
    if let Gap::Len(w) = gap(s, eof) {
        if w < s.len() {
        let t = s.skip(w as int);
        lemma_literal_not_end(t.skip(1), eof);
        assert(!(scan_number(t, eof) is End));
        assert(eof ==> !(scan_number(t, eof) is More));
        assert(!(scan_word(t, eof) is End));
        assert(!(scan_quoted(t, eof) is End));
        assert(!(scan_string(t, eof) is End));
        assert(!(scan_token(t, eof) is End));
        assert(eof ==> !(scan_token(t, eof) is More));
        }
    }
}

/// At the end of the stream a gap is never cut short.
proof fn lemma_gap_finished(s: Seq<char>, eof: bool)
    ensures
        eof ==> !(gap(s, eof) is More),
    decreases s.len(),
{
    if s.len() > 0 {
        if is_space(s[0]) {
            lemma_gap_finished(s.skip(1), eof);
        } else if line_comment_at(s) {
            let n = run(s, CharClass::NotNewline);
            if n < s.len() {
                lemma_gap_finished(s.skip((n + 1) as int), eof);
            }
        } else if block_comment_at(s) {
            if let Some(e) = block_end(s, 2) {
                if 2 <= e <= s.len() {
                    lemma_gap_finished(s.skip(e), eof);
                }
            }
        }
    }
}

/// All tokens of a finished text, or the first error.
pub open spec fn lex_all(s: Seq<char>) -> Result<Seq<Lexeme>, TokenizerError>
    decreases s.len(),
{
    match scan(s, true) {
        Scanned::Token(l, n) => if 1 <= n <= s.len() {
            match lex_all(s.skip(n as int)) {
                Ok(ls) => Ok(seq![l] + ls),
                Err(e) => Err(e),
            }
        } else {
            Ok(seq![l])
        },
        Scanned::Fail(e) => Err(e),
        _ => Ok(Seq::empty()),
    }
}

pub open spec fn lexemes(ts: Seq<Token>) -> Seq<Lexeme> {
    ts.map_values(|t: Token| t@)
}

pub open spec fn after(a: Seq<Lexeme>, r: Result<Seq<Lexeme>, TokenizerError>) -> Result<Seq<Lexeme>, TokenizerError> {
    match r {
        Ok(ls) => Ok(a + ls),
        Err(e) => Err(e),
    }
}

/// All tokens left in a finished tokenizer.
fn drain(full: Tokenizer) -> (r: Result<Vec<Token>, TokenizerError>)
    requires
        full.wf(),
        full.finished(),
    ensures
        match lex_all(full.rest()) {
            Ok(ls) => r matches Ok(v) && lexemes(v@) == ls,
            Err(e) => r == Err::<Vec<Token>, TokenizerError>(e),
        },
{
    let ghost all = full.rest();
    let mut tk = full;
    let mut out: Vec<Token> = Vec::new();
    assert(lexemes(out@) + Seq::<Lexeme>::empty() =~= lexemes(out@));
    assert(lex_all(all) == after(lexemes(out@), lex_all(tk.rest()))) by {
        if let Ok(ls) = lex_all(all) {
            assert(lexemes(out@) + ls =~= ls);
        }
    }
    loop
        invariant
            tk.wf(),
            tk.finished(),
            all == full.rest(),
            lex_all(all) == after(lexemes(out@), lex_all(tk.rest())),
        decreases tk.rest().len(),
    {
        let ghost before = tk.rest();
        match tk.next_token() {
            Ok(Some(t)) => {
                proof {
                    assert(lexemes(out@.push(t)) =~= lexemes(out@).push(t@));
                    match lex_all(tk.rest()) {
                        Ok(ls) => {
                            assert(lexemes(out@) + (seq![t@] + ls) =~= lexemes(out@).push(t@) + ls);
                        },
                        Err(e) => {},
                    }
                }
                out.push(t);
            },
            Ok(None) => {
                assert(lex_all(before) == Ok::<Seq<Lexeme>, TokenizerError>(Seq::empty()));
                assert(lexemes(out@) + Seq::<Lexeme>::empty() =~= lexemes(out@));
                return Ok(out);
            },
            Err(e) => {
                return Err(e);
            },
        }
    }
}

/// Tokenizes the whole of `source`, a UTF-8 text.
pub fn tokenize(source: &[u8]) -> (r: Result<Vec<Token>, TokenizerError>)
    ensures
        match utf8_chars(source@) {
            None => r == Err::<Vec<Token>, TokenizerError>(TokenizerError::InvalidUtf8),
            Some(cs) => match lex_all(cs) {
                Ok(ls) => r matches Ok(v) && lexemes(v@) == ls,
                Err(e) => r == Err::<Vec<Token>, TokenizerError>(e),
            },
        },
{
    let mut tk = Tokenizer::new();
    match tk.feed(source) {
        Ok(()) => {},
        Err(e) => return Err(e),
    }
    tk.finish();
    assert(tk.rest() =~= utf8_chars(source@)->0);
    drain(tk)
}

/// Tokenizes the whole of `text`.
pub fn tokenize_text(text: &str) -> (r: Result<Vec<Token>, TokenizerError>)
    ensures
        match lex_all(text@) {
            Ok(ls) => r matches Ok(v) && lexemes(v@) == ls,
            Err(e) => r == Err::<Vec<Token>, TokenizerError>(e),
        },
{
    let chars = chars_of(text);
    let tk = Tokenizer { chars, pos: 0, finished: true };
    assert(tk.rest() =~= text@);
    drain(tk)
}

/// A symbol token.
pub fn sym(s: &str) -> (r: Token)
    ensures
        r@ == Lexeme::Symbol(s@),
{
    Token::Symbol(s.to_owned())
}

/// A string value token.
pub fn strt(s: &str) -> (r: Token)
    ensures
        r@ == Lexeme::Str(s@),
{
    Token::Value(Value::String(s.to_owned()))
}

/// An integer value token.
pub fn numt(n: i64) -> (r: Token)
    ensures
        r@ == Lexeme::Int(n as int),
{
    Token::Value(Value::Integer(n))
}

} // verus!
