//! Writing tokens out as dump text, and the law that the tokenizer reads
//! such text back as the same tokens, whatever white space pads them.
use vstd::prelude::*;

use crate::sql::{
    Gap, block_comment_at, gap, line_comment_at, CharClass, Lexeme, Scanned, digits_value, in_class, is_alpha, is_digit, is_space, lex_all, null_word, prepend,
    run, scan, scan_literal, scan_number, scan_quoted, scan_string, scan_token, scan_word,
};

verus! {

/// A token as written in a dump.
pub enum Piece {
    /// A punctuation character.
    Punct(char),
    /// A keyword or name: letters and digits, starting with a letter.
    Word(Seq<char>),
    /// A name between backticks.
    Quoted(Seq<char>),
    /// A string literal, with its quotes and backslashes escaped; where the
    /// second sequence holds `true` at a position, a quote there is written
    /// `\'` rather than `''`, and a double quote `\"` rather than as itself.
    Str(Seq<char>, Seq<bool>),
    /// An integer: a minus sign if negative, then its digits.
    Int(bool, Seq<char>),
    /// A decimal: a minus sign if negative, digits, `.`, digits.
    Float(bool, Seq<char>, Seq<char>),
    Null,
}

pub open spec fn sign_text(neg: bool) -> Seq<char> {
    if neg { seq!['-'] } else { Seq::empty() }
}

/// How a string literal writes one character, `alt` choosing the backslash
/// form for quotes.
pub open spec fn escaped_char(c: char, alt: bool) -> Seq<char> {
    if c == '\'' {
        if alt { seq!['\\', '\''] } else { seq!['\'', '\''] }
    } else if c == '\\' {
        seq!['\\', '\\']
    } else if c == '"' && alt {
        seq!['\\', '"']
    } else {
        seq![c]
    }
}

/// The body of a string literal for `s`.
pub open spec fn escaped(s: Seq<char>, alt: Seq<bool>) -> Seq<char>
    decreases s.len(),
{
    if s.len() == 0 {
        Seq::empty()
    } else {
        escaped_char(s[0], alt[0]) + escaped(s.skip(1), alt.skip(1))
    }
}

pub open spec fn piece_text(p: Piece) -> Seq<char> {
    match p {
        Piece::Punct(c) => seq![c],
        Piece::Word(w) => w,
        Piece::Quoted(q) => seq!['`'] + q + seq!['`'],
        Piece::Str(s, alt) => seq!['\''] + escaped(s, alt) + seq!['\''],
        Piece::Int(neg, d) => sign_text(neg) + d,
        Piece::Float(neg, d, f) => sign_text(neg) + d + seq!['.'] + f,
        Piece::Null => null_word(),
    }
}

pub open spec fn signed(neg: bool, d: Seq<char>) -> int {
    if neg { -(digits_value(d) as int) } else { digits_value(d) as int }
}

/// The token that a piece stands for.
pub open spec fn piece_lexeme(p: Piece) -> Lexeme {
    match p {
        Piece::Punct(c) => Lexeme::Symbol(seq![c]),
        Piece::Word(w) => Lexeme::Symbol(w),
        Piece::Quoted(q) => Lexeme::Symbol(q),
        Piece::Str(s, _) => Lexeme::Str(s),
        Piece::Int(neg, d) => Lexeme::Int(signed(neg, d)),
        Piece::Float(_, _, _) => Lexeme::Float(piece_text(p)),
        Piece::Null => Lexeme::Null,
    }
}

pub open spec fn all_in(s: Seq<char>, cl: CharClass) -> bool {
    forall|i: int| 0 <= i < s.len() ==> in_class(cl, #[trigger] s[i])
}

/// A piece that the tokenizer reads as one token.
pub open spec fn valid_piece(p: Piece) -> bool {
    match p {
        Piece::Punct(c) => !is_digit(c) && !is_alpha(c) && !is_space(c) && c != '`' && c != '\'' && c != '-' && c != '#'
            && c != '/',
        Piece::Word(w) => w.len() > 0 && is_alpha(w[0]) && all_in(w, CharClass::Alnum) && w != null_word(),
        Piece::Quoted(q) => all_in(q, CharClass::NotBacktick),
        Piece::Str(_, _) => true,
        Piece::Int(neg, d) => d.len() > 0 && all_in(d, CharClass::Digit) && i64::MIN <= signed(neg, d) <= i64::MAX,
        Piece::Float(_, d, f) => d.len() > 0 && all_in(d, CharClass::Digit) && all_in(f, CharClass::Digit),
        Piece::Null => true,
    }
}

/// Whether `c`, written right after `p`, leaves `p`'s token as it is.
pub open spec fn stops(p: Piece, c: char) -> bool {
    match p {
        Piece::Word(_) => !is_digit(c) && !is_alpha(c),
        Piece::Null => !is_digit(c) && !is_alpha(c),
        Piece::Str(_, _) => c != '\'',
        Piece::Int(_, _) => !is_digit(c) && c != '.',
        Piece::Float(_, _, _) => !is_digit(c),
        _ => true,
    }
}

/// The pieces written out, with `pads[k]` before piece `k` and the last pad
/// after them all.
pub open spec fn render(ps: Seq<Piece>, pads: Seq<Seq<char>>) -> Seq<char>
    decreases ps.len(),
{
    if pads.len() == 0 {
        Seq::empty()
    } else if ps.len() == 0 {
        pads[0]
    } else {
        pads[0] + piece_text(ps[0]) + render(ps.skip(1), pads.skip(1))
    }
}

/// Each piece is followed by padding or by a piece that cannot run into it.
pub open spec fn separated(ps: Seq<Piece>, pads: Seq<Seq<char>>) -> bool {
    forall|k: int|
        0 <= k < ps.len() - 1 ==> pads[k + 1].len() > 0 || #[trigger] stops(ps[k], piece_text(ps[k + 1])[0])
}

pub open spec fn piece_lexemes(ps: Seq<Piece>) -> Seq<Lexeme> {
    ps.map_values(|p: Piece| piece_lexeme(p))
}

proof fn lemma_run_concat(a: Seq<char>, b: Seq<char>, cl: CharClass)
    requires
        all_in(a, cl),
        b.len() == 0 || !in_class(cl, b[0]),
    ensures
        run(a + b, cl) == a.len(),
    decreases a.len(),
{
    if a.len() == 0 {
        assert(a + b =~= b);
    } else {
        assert((a + b).skip(1) =~= a.skip(1) + b);
        assert(in_class(cl, a[0]));
        lemma_run_concat(a.skip(1), b, cl);
    }
}

proof fn lemma_literal(s: Seq<char>, alt: Seq<bool>, rest: Seq<char>)
    requires
        rest.len() == 0 || rest[0] != '\'',
    ensures
        scan_literal(escaped(s, alt) + seq!['\''] + rest, true) == Scanned::Token(
            Lexeme::Str(s),
            escaped(s, alt).len() + 1,
        ),
    decreases s.len(),
{
    let u = escaped(s, alt) + seq!['\''] + rest;
    if s.len() == 0 {
        assert(escaped(s, alt) =~= Seq::<char>::empty());
        assert(u =~= seq!['\''] + rest);
        assert(s =~= Seq::<char>::empty());
        if u.len() > 1 {
            assert(u[1] == rest[0]);
        }
    } else {
        let c = s[0];
        let t = s.skip(1);
        lemma_literal(t, alt.skip(1), rest);
        let e = escaped_char(c, alt[0]);
        let k = e.len();
        assert(u =~= e + (escaped(t, alt.skip(1)) + seq!['\''] + rest));
        assert(u.skip(k as int) =~= escaped(t, alt.skip(1)) + seq!['\''] + rest);
        assert(seq![c] + t =~= s);
        assert(u[0] == e[0]);
        if k == 2 {
            assert(u[1] == e[1]);
        }
    }
}

proof fn lemma_scan_word(w: Seq<char>, rest: Seq<char>, null: bool)
    requires
        w.len() > 0,
        is_alpha(w[0]),
        all_in(w, CharClass::Alnum),
        null <==> w == null_word(),
        rest.len() == 0 || !(is_digit(rest[0]) || is_alpha(rest[0])),
    ensures
        scan_token(w + rest, true) == Scanned::Token(if null { Lexeme::Null } else { Lexeme::Symbol(w) }, w.len()),
{
    let t = w + rest;
    lemma_run_concat(w, rest, CharClass::Alnum);
    assert(t.take(w.len() as int) =~= w);
    assert(t[0] == w[0]);
    assert(scan_word(t, true) == Scanned::Token(if null { Lexeme::Null } else { Lexeme::Symbol(w) }, w.len()));
}

proof fn lemma_scan_quoted(q: Seq<char>, rest: Seq<char>)
    requires
        all_in(q, CharClass::NotBacktick),
    ensures
        scan_token(seq!['`'] + q + seq!['`'] + rest, true) == Scanned::Token(Lexeme::Symbol(q), q.len() + 2),
{
    let t = seq!['`'] + q + seq!['`'] + rest;
    assert(t.skip(1) =~= q + (seq!['`'] + rest));
    lemma_run_concat(q, seq!['`'] + rest, CharClass::NotBacktick);
    assert(t.subrange(1, 1 + q.len() as int) =~= q);
    assert(t[0] == '`');
    assert(scan_quoted(t, true) == Scanned::Token(Lexeme::Symbol(q), q.len() + 2));
}

proof fn lemma_scan_str(s: Seq<char>, alt: Seq<bool>, rest: Seq<char>)
    requires
        rest.len() == 0 || rest[0] != '\'',
    ensures
        scan_token(seq!['\''] + escaped(s, alt) + seq!['\''] + rest, true) == Scanned::Token(
            Lexeme::Str(s),
            escaped(s, alt).len() + 2,
        ),
{
    let t = seq!['\''] + escaped(s, alt) + seq!['\''] + rest;
    assert(t.skip(1) =~= escaped(s, alt) + seq!['\''] + rest);
    lemma_literal(s, alt, rest);
    assert(t[0] == '\'');
    assert(scan_string(t, true) == Scanned::Token(Lexeme::Str(s), escaped(s, alt).len() + 2));
}

proof fn lemma_scan_int(neg: bool, d: Seq<char>, rest: Seq<char>)
    requires
        d.len() > 0,
        all_in(d, CharClass::Digit),
        i64::MIN <= signed(neg, d) <= i64::MAX,
        rest.len() == 0 || (!is_digit(rest[0]) && rest[0] != '.'),
    ensures
        scan_token(sign_text(neg) + d + rest, true) == Scanned::Token(Lexeme::Int(signed(neg, d)), sign_text(neg).len() + d.len()),
{
    let t = sign_text(neg) + d + rest;
    let sign: nat = if neg { 1 } else { 0 };
    assert(t =~= sign_text(neg) + (d + rest));
    assert(t.skip(sign as int) =~= d + rest);
    assert(in_class(CharClass::Digit, d[0]));
    assert(t[sign as int] == d[0]);
    if neg {
        assert(t[0] == '-');
    } else {
        assert(t[0] == d[0]);
    }
    lemma_run_concat(d, rest, CharClass::Digit);
    let e = sign + d.len();
    assert(t.subrange(sign as int, e as int) =~= d);
    if e < t.len() {
        assert(t[e as int] == rest[0]);
    }
    assert(scan_number(t, true) == Scanned::Token(Lexeme::Int(signed(neg, d)), e)) by {
        reveal(scan_number);
    }
}

proof fn lemma_scan_float(neg: bool, d: Seq<char>, f: Seq<char>, rest: Seq<char>)
    requires
        d.len() > 0,
        all_in(d, CharClass::Digit),
        all_in(f, CharClass::Digit),
        rest.len() == 0 || !is_digit(rest[0]),
    ensures
        ({
            let text = sign_text(neg) + d + seq!['.'] + f;
            scan_token(text + rest, true) == Scanned::Token(Lexeme::Float(text), text.len())
        }),
{
    let text = sign_text(neg) + d + seq!['.'] + f;
    let t = text + rest;
    let sign: nat = if neg { 1 } else { 0 };
    let tail = seq!['.'] + f + rest;
    assert(t =~= sign_text(neg) + (d + tail));
    assert(t.skip(sign as int) =~= d + tail);
    assert(in_class(CharClass::Digit, d[0]));
    assert(t[sign as int] == d[0]);
    if neg {
        assert(t[0] == '-');
    } else {
        assert(t[0] == d[0]);
    }
    lemma_run_concat(d, tail, CharClass::Digit);
    let e = sign + d.len();
    assert(t[e as int] == '.');
    assert(t.skip((e + 1) as int) =~= f + rest);
    lemma_run_concat(f, rest, CharClass::Digit);
    let fe = e + 1 + f.len();
    assert(t.take(fe as int) =~= text);
    assert(scan_number(t, true) == Scanned::Token(Lexeme::Float(text), fe)) by {
        reveal(scan_number);
    }
}

proof fn lemma_piece_scan(p: Piece, rest: Seq<char>)
    requires
        valid_piece(p),
        rest.len() == 0 || stops(p, rest[0]),
    ensures
        scan_token(piece_text(p) + rest, true) == Scanned::Token(piece_lexeme(p), piece_text(p).len()),
{
    match p {
        Piece::Punct(c) => {
            assert((seq![c] + rest)[0] == c);
        },
        Piece::Word(w) => {
            lemma_scan_word(w, rest, false);
        },
        Piece::Null => {
            let w = null_word();
            assert(all_in(w, CharClass::Alnum)) by {
                assert forall|i: int| 0 <= i < w.len() implies in_class(CharClass::Alnum, #[trigger] w[i]) by {
                    assert(w[i] == 'N' || w[i] == 'U' || w[i] == 'L');
                }
            }
            lemma_scan_word(w, rest, true);
        },
        Piece::Quoted(q) => {
            lemma_scan_quoted(q, rest);
        },
        Piece::Str(s, alt) => {
            lemma_scan_str(s, alt, rest);
        },
        Piece::Int(neg, d) => {
            lemma_scan_int(neg, d, rest);
        },
        Piece::Float(neg, d, f) => {
            lemma_scan_float(neg, d, f, rest);
        },
    }
}

proof fn lemma_piece_head(p: Piece)
    requires
        valid_piece(p),
    ensures
        piece_text(p).len() > 0,
        !is_space(piece_text(p)[0]),
        forall|r: Seq<char>| !line_comment_at(#[trigger] (piece_text(p) + r)) && !block_comment_at(piece_text(p) + r),
{
    match p {
        Piece::Int(neg, d) => {
            assert(in_class(CharClass::Digit, d[0]));
            if neg {
                assert(piece_text(p)[1] == d[0]);
            }
        },
        Piece::Float(neg, d, f) => {
            assert(in_class(CharClass::Digit, d[0]));
            if neg {
                assert(piece_text(p)[1] == d[0]);
            } else {
                assert(piece_text(p)[0] == d[0]);
            }
        },
        _ => {},
    }
    assert forall|r: Seq<char>| !line_comment_at(#[trigger] (piece_text(p) + r)) && !block_comment_at(piece_text(p) + r) by {
        let t = piece_text(p) + r;
        assert(t[0] == piece_text(p)[0]);
        if piece_text(p).len() > 1 {
            assert(t[1] == piece_text(p)[1]);
        }
    }
}

/// White space before a text that starts no comment is the whole gap.
proof fn lemma_gap_pad(pad: Seq<char>, t: Seq<char>)
    requires
        all_in(pad, CharClass::Space),
        t.len() == 0 || (!is_space(t[0]) && !line_comment_at(t) && !block_comment_at(t)),
    ensures
        gap(pad + t, true) == Gap::Len(pad.len()),
    decreases pad.len(),
{
    if pad.len() == 0 {
        assert(pad + t =~= t);
    } else {
        assert((pad + t).skip(1) =~= pad.skip(1) + t);
        assert(in_class(CharClass::Space, pad[0]));
        lemma_gap_pad(pad.skip(1), t);
    }
}

proof fn lemma_tail(ps: Seq<Piece>, pads: Seq<Seq<char>>)
    requires
        ps.len() > 0,
        pads.len() == ps.len() + 1,
        forall|k: int| 0 <= k < ps.len() ==> valid_piece(#[trigger] ps[k]),
        forall|k: int| 0 <= k < pads.len() ==> all_in(#[trigger] pads[k], CharClass::Space),
        separated(ps, pads),
    ensures
        forall|k: int| 0 <= k < ps.skip(1).len() ==> valid_piece(#[trigger] ps.skip(1)[k]),
        forall|k: int| 0 <= k < pads.skip(1).len() ==> all_in(#[trigger] pads.skip(1)[k], CharClass::Space),
        separated(ps.skip(1), pads.skip(1)),
{
    assert forall|k: int| 0 <= k < ps.skip(1).len() implies valid_piece(#[trigger] ps.skip(1)[k]) by {
        assert(ps.skip(1)[k] == ps[k + 1]);
    }
    assert forall|k: int| 0 <= k < pads.skip(1).len() implies all_in(#[trigger] pads.skip(1)[k], CharClass::Space) by {
        assert(pads.skip(1)[k] == pads[k + 1]);
    }
    assert forall|k: int| 0 <= k < ps.skip(1).len() - 1 implies pads.skip(1)[k + 1].len() > 0
        || #[trigger] stops(ps.skip(1)[k], piece_text(ps.skip(1)[k + 1])[0]) by {
        assert(ps.skip(1)[k] == ps[k + 1]);
        assert(ps.skip(1)[k + 1] == ps[k + 2]);
        assert(pads.skip(1)[k + 1] == pads[k + 2]);
        assert(pads[k + 2].len() > 0 || stops(ps[k + 1], piece_text(ps[k + 2])[0]));
    }
}

proof fn lemma_next_stops(ps: Seq<Piece>, pads: Seq<Seq<char>>)
    requires
        ps.len() > 0,
        pads.len() == ps.len() + 1,
        forall|k: int| 0 <= k < ps.len() ==> valid_piece(#[trigger] ps[k]),
        forall|k: int| 0 <= k < pads.len() ==> all_in(#[trigger] pads[k], CharClass::Space),
        separated(ps, pads),
    ensures
        ({
            let r = render(ps.skip(1), pads.skip(1));
            r.len() == 0 || stops(ps[0], r[0])
        }),
{
    let r = render(ps.skip(1), pads.skip(1));
    assert(all_in(pads[1], CharClass::Space));
    if ps.len() > 1 {
        assert(r =~= pads[1] + piece_text(ps[1]) + render(ps.skip(2), pads.skip(2))) by {
            assert(ps.skip(1).skip(1) =~= ps.skip(2));
            assert(pads.skip(1).skip(1) =~= pads.skip(2));
            assert(ps.skip(1)[0] == ps[1]);
            assert(pads.skip(1)[0] == pads[1]);
        }
        if pads[1].len() > 0 {
            assert(r[0] == pads[1][0]);
            assert(in_class(CharClass::Space, pads[1][0]));
        } else {
            assert(valid_piece(ps[1]));
            lemma_piece_head(ps[1]);
            assert(r[0] == piece_text(ps[1])[0]);
            assert(stops(ps[0], piece_text(ps[1])[0]));
        }
    } else {
        assert(r == pads[1]) by {
            assert(pads.skip(1)[0] == pads[1]);
        }
        if pads[1].len() > 0 {
            assert(in_class(CharClass::Space, pads[1][0]));
        }
    }
}

proof fn lemma_first_token(pad: Seq<char>, p: Piece, r: Seq<char>)
    requires
        all_in(pad, CharClass::Space),
        valid_piece(p),
        r.len() == 0 || stops(p, r[0]),
    ensures
        scan(pad + piece_text(p) + r, true) == Scanned::Token(piece_lexeme(p), piece_text(p).len() + pad.len()),
        (pad + piece_text(p) + r).skip((piece_text(p).len() + pad.len()) as int) == r,
{
    let text = piece_text(p);
    let s = pad + text + r;
    lemma_piece_head(p);
    lemma_piece_scan(p, r);
    assert(s =~= pad + (text + r));
    assert((text + r)[0] == text[0]);
    assert(!line_comment_at(text + r));
    lemma_gap_pad(pad, text + r);
    assert(s.skip(pad.len() as int) =~= text + r);
    assert(s.skip((text.len() + pad.len()) as int) =~= r);
}

/// Tokenizing pieces written out with white space between them gives back
/// their tokens, one for each, in order, as long as no piece runs into the
/// next one (a word followed directly by a word, say).
pub proof fn lemma_tokens_round_trip(ps: Seq<Piece>, pads: Seq<Seq<char>>)
    requires
        pads.len() == ps.len() + 1,
        forall|k: int| 0 <= k < ps.len() ==> valid_piece(#[trigger] ps[k]),
        forall|k: int| 0 <= k < pads.len() ==> all_in(#[trigger] pads[k], CharClass::Space),
        separated(ps, pads),
    ensures
        lex_all(render(ps, pads)) == Ok::<Seq<Lexeme>, crate::sql::TokenizerError>(piece_lexemes(ps)),
    decreases ps.len(),
{
    if ps.len() == 0 {
        assert(all_in(pads[0], CharClass::Space));
        lemma_gap_pad(pads[0], Seq::empty());
        assert(pads[0] + Seq::<char>::empty() =~= pads[0]);
        assert(piece_lexemes(ps) =~= Seq::<Lexeme>::empty());
    } else {
        let r = render(ps.skip(1), pads.skip(1));
        assert(valid_piece(ps[0]));
        assert(all_in(pads[0], CharClass::Space));
        lemma_tail(ps, pads);
        lemma_tokens_round_trip(ps.skip(1), pads.skip(1));
        lemma_next_stops(ps, pads);
        lemma_first_token(pads[0], ps[0], r);
        lemma_piece_head(ps[0]);
        assert(piece_lexemes(ps) =~= seq![piece_lexeme(ps[0])] + piece_lexemes(ps.skip(1)));
    }
}


/// A value of the four kinds that a row holds.
pub open spec fn is_literal(p: Piece) -> bool {
    p is Str || p is Int || p is Float || p is Null
}

/// The values of a row, separated by commas.
pub open spec fn values_pieces(vs: Seq<Piece>) -> Seq<Piece>
    decreases vs.len(),
{
    if vs.len() <= 1 {
        vs
    } else {
        seq![vs[0], Piece::Punct(',')] + values_pieces(vs.skip(1))
    }
}

/// The rows, each in parentheses, separated by commas.
pub open spec fn rows_pieces(rows: Seq<Seq<Piece>>) -> Seq<Piece>
    decreases rows.len(),
{
    if rows.len() == 0 {
        Seq::empty()
    } else {
        let first = seq![Piece::Punct('(')] + values_pieces(rows[0]) + seq![Piece::Punct(')')];
        if rows.len() == 1 {
            first
        } else {
            first + seq![Piece::Punct(',')] + rows_pieces(rows.skip(1))
        }
    }
}

/// `INSERT INTO `table` VALUES (…),…,(…);`
pub open spec fn insert_pieces(table: Seq<char>, rows: Seq<Seq<Piece>>) -> Seq<Piece> {
    seq![
        Piece::Word(seq!['I', 'N', 'S', 'E', 'R', 'T']),
        Piece::Word(seq!['I', 'N', 'T', 'O']),
        Piece::Quoted(table),
        Piece::Word(seq!['V', 'A', 'L', 'U', 'E', 'S']),
    ] + rows_pieces(rows) + seq![Piece::Punct(';')]
}

/// A piece that ends wherever it is followed, or that no piece runs into.
pub open spec fn fenced(p: Piece) -> bool {
    (p is Punct && p->Punct_0 != '.') || p is Quoted
}

/// Of any two neighbours, one is fenced.
pub open spec fn alternating(ps: Seq<Piece>) -> bool {
    forall|k: int| 0 <= k < ps.len() - 1 ==> fenced(#[trigger] ps[k]) || fenced(ps[k + 1])
}

pub open spec fn all_valid(ps: Seq<Piece>) -> bool {
    forall|k: int| 0 <= k < ps.len() ==> valid_piece(#[trigger] ps[k])
}

proof fn lemma_concat(a: Seq<Piece>, b: Seq<Piece>)
    requires
        alternating(a),
        alternating(b),
        a.len() == 0 || b.len() == 0 || fenced(a.last()) || fenced(b[0]),
        all_valid(a),
        all_valid(b),
    ensures
        alternating(a + b),
        all_valid(a + b),
{
    let c = a + b;
    assert forall|k: int| 0 <= k < c.len() - 1 implies fenced(#[trigger] c[k]) || fenced(c[k + 1]) by {
        if k < a.len() - 1 {
            assert(c[k] == a[k] && c[k + 1] == a[k + 1]);
        } else if k == a.len() - 1 {
            assert(c[k] == a.last() && c[k + 1] == b[0]);
        } else {
            assert(c[k] == b[k - a.len()] && c[k + 1] == b[k - a.len() + 1]);
        }
    }
    assert forall|k: int| 0 <= k < c.len() implies valid_piece(#[trigger] c[k]) by {
        if k < a.len() {
            assert(c[k] == a[k]);
        } else {
            assert(c[k] == b[k - a.len()]);
        }
    }
}

proof fn lemma_values(vs: Seq<Piece>)
    requires
        vs.len() > 0,
        forall|k: int| 0 <= k < vs.len() ==> is_literal(#[trigger] vs[k]) && valid_piece(vs[k]),
    ensures
        alternating(values_pieces(vs)),
        all_valid(values_pieces(vs)),
        values_pieces(vs).len() > 0,
        is_literal(values_pieces(vs)[0]),
        is_literal(values_pieces(vs).last()),
    decreases vs.len(),
{
    assert(is_literal(vs[0]) && valid_piece(vs[0]));
    if vs.len() > 1 {
        let t = vs.skip(1);
        assert forall|k: int| 0 <= k < t.len() implies is_literal(#[trigger] t[k]) && valid_piece(t[k]) by {
            assert(t[k] == vs[k + 1]);
        }
        lemma_values(t);
        let h = seq![vs[0], Piece::Punct(',')];
        assert(alternating(h)) by {
            assert(fenced(h[1]));
        }
        assert(all_valid(h)) by {
            assert forall|k: int| 0 <= k < h.len() implies valid_piece(#[trigger] h[k]) by {
                if k == 0 { assert(h[0] == vs[0]); }
            }
        }
        assert(fenced(h.last()));
        lemma_concat(h, values_pieces(t));
        assert((h + values_pieces(t))[0] == vs[0]);
        assert((h + values_pieces(t)).last() == values_pieces(t).last());
    } else {
        assert(all_valid(vs)) by {
            assert(vs.len() == 1);
        }
    }
}

proof fn lemma_rows(rows: Seq<Seq<Piece>>)
    requires
        rows.len() > 0,
        forall|i: int| 0 <= i < rows.len() ==> #[trigger] rows[i].len() > 0,
        forall|i: int, k: int| 0 <= i < rows.len() && 0 <= k < rows[i].len()
            ==> is_literal(#[trigger] rows[i][k]) && valid_piece(rows[i][k]),
    ensures
        alternating(rows_pieces(rows)),
        all_valid(rows_pieces(rows)),
        rows_pieces(rows).len() > 0,
        rows_pieces(rows)[0] == Piece::Punct('('),
        rows_pieces(rows).last() == Piece::Punct(')'),
    decreases rows.len(),
{
    let vs = rows[0];
    assert(vs.len() > 0);
    assert forall|k: int| 0 <= k < vs.len() implies is_literal(#[trigger] vs[k]) && valid_piece(vs[k]) by {
        assert(is_literal(rows[0][k]) && valid_piece(rows[0][k]));
    }
    lemma_values(vs);
    let open = seq![Piece::Punct('(')];
    let close = seq![Piece::Punct(')')];
    assert(alternating(open) && alternating(close));
    assert(all_valid(open)) by {
        assert forall|k: int| 0 <= k < open.len() implies valid_piece(#[trigger] open[k]) by {}
    }
    assert(all_valid(close)) by {
        assert forall|k: int| 0 <= k < close.len() implies valid_piece(#[trigger] close[k]) by {}
    }
    lemma_concat(open, values_pieces(vs));
    lemma_concat(open + values_pieces(vs), close);
    let first = open + values_pieces(vs) + close;
    assert(first[0] == Piece::Punct('('));
    assert(first.last() == Piece::Punct(')'));
    if rows.len() > 1 {
        let t = rows.skip(1);
        assert forall|i: int| 0 <= i < t.len() implies #[trigger] t[i].len() > 0 by {
            assert(t[i] == rows[i + 1]);
        }
        assert forall|i: int, k: int| 0 <= i < t.len() && 0 <= k < t[i].len()
            implies is_literal(#[trigger] t[i][k]) && valid_piece(t[i][k]) by {
            assert(t[i] == rows[i + 1]);
            assert(is_literal(rows[i + 1][k]) && valid_piece(rows[i + 1][k]));
        }
        lemma_rows(t);
        let comma = seq![Piece::Punct(',')];
        assert(alternating(comma));
        assert(all_valid(comma)) by {
            assert forall|k: int| 0 <= k < comma.len() implies valid_piece(#[trigger] comma[k]) by {}
        }
        lemma_concat(first, comma);
        lemma_concat(first + comma, rows_pieces(t));
        assert((first + comma + rows_pieces(t))[0] == Piece::Punct('('));
        assert((first + comma + rows_pieces(t)).last() == rows_pieces(t).last());
    }
}

proof fn lemma_fenced_stops(p: Piece, q: Piece)
    requires
        fenced(p) || fenced(q),
        valid_piece(q),
    ensures
        stops(p, piece_text(q)[0]),
{
}

/// The tokens of an `INSERT INTO `table` VALUES (…),…,(…);` statement whose
/// values are strings, integers, decimals and nulls, written out with any
/// white space around its tokens, are read back as exactly that alternation
/// of symbols and values. `INSERT` and `INTO` need white space between them.
/// `tokenize_text` answers `lex_all` of its text, so this is what it gives
/// for such a statement.
pub proof fn lemma_insert_round_trip(table: Seq<char>, rows: Seq<Seq<Piece>>, pads: Seq<Seq<char>>)
    requires
        all_in(table, CharClass::NotBacktick),
        rows.len() > 0,
        forall|i: int| 0 <= i < rows.len() ==> #[trigger] rows[i].len() > 0,
        forall|i: int, k: int| 0 <= i < rows.len() && 0 <= k < rows[i].len()
            ==> is_literal(#[trigger] rows[i][k]) && valid_piece(rows[i][k]),
        pads.len() == insert_pieces(table, rows).len() + 1,
        forall|k: int| 0 <= k < pads.len() ==> all_in(#[trigger] pads[k], CharClass::Space),
        pads[1].len() > 0,
    ensures
        lex_all(render(insert_pieces(table, rows), pads)) == Ok::<Seq<Lexeme>, crate::sql::TokenizerError>(
            piece_lexemes(insert_pieces(table, rows)),
        ),
{
    let head = seq![
        Piece::Word(seq!['I', 'N', 'S', 'E', 'R', 'T']),
        Piece::Word(seq!['I', 'N', 'T', 'O']),
        Piece::Quoted(table),
        Piece::Word(seq!['V', 'A', 'L', 'U', 'E', 'S']),
    ];
    let tail = seq![Piece::Punct(';')];
    let ps = insert_pieces(table, rows);
    assert(all_valid(head)) by {
        assert forall|k: int| 0 <= k < head.len() implies valid_piece(#[trigger] head[k]) by {
            if k == 0 {
                let w = seq!['I', 'N', 'S', 'E', 'R', 'T'];
                assert(all_in(w, CharClass::Alnum)) by {
                    assert forall|i: int| 0 <= i < w.len() implies in_class(CharClass::Alnum, #[trigger] w[i]) by {}
                }
                assert(w != null_word()) by { assert(w.len() != null_word().len()); }
            } else if k == 1 {
                let w = seq!['I', 'N', 'T', 'O'];
                assert(all_in(w, CharClass::Alnum)) by {
                    assert forall|i: int| 0 <= i < w.len() implies in_class(CharClass::Alnum, #[trigger] w[i]) by {}
                }
                assert(w != null_word()) by { assert(w[0] != null_word()[0]); }
            } else if k == 3 {
                let w = seq!['V', 'A', 'L', 'U', 'E', 'S'];
                assert(all_in(w, CharClass::Alnum)) by {
                    assert forall|i: int| 0 <= i < w.len() implies in_class(CharClass::Alnum, #[trigger] w[i]) by {}
                }
                assert(w != null_word()) by { assert(w.len() != null_word().len()); }
            }
        }
    }
    assert(all_valid(tail)) by {
        assert forall|k: int| 0 <= k < tail.len() implies valid_piece(#[trigger] tail[k]) by {}
    }
    lemma_rows(rows);
    let body = rows_pieces(rows);
    assert(alternating(tail));
    lemma_concat(body, tail);
    assert(ps =~= head + (body + tail));
    assert forall|k: int| 0 <= k < ps.len() implies valid_piece(#[trigger] ps[k]) by {
        if k < 4 {
            assert(ps[k] == head[k]);
        } else {
            assert(ps[k] == (body + tail)[k - 4]);
        }
    }
    assert forall|k: int| 0 <= k < ps.len() - 1 implies pads[k + 1].len() > 0
        || #[trigger] stops(ps[k], piece_text(ps[k + 1])[0]) by {
        if k >= 4 {
            let bt = body + tail;
            assert(ps[k] == bt[k - 4] && ps[k + 1] == bt[k - 3]);
            assert(fenced(bt[k - 4]) || fenced(bt[k - 3]));
            assert(valid_piece(ps[k + 1]));
            lemma_fenced_stops(ps[k], ps[k + 1]);
        } else if k == 3 {
            assert(ps[4] == body[0]);
            assert(valid_piece(ps[4]));
            lemma_fenced_stops(ps[3], ps[4]);
        } else if k == 2 {
            assert(fenced(ps[2]));
            assert(valid_piece(ps[3]));
            lemma_fenced_stops(ps[2], ps[3]);
        } else if k == 1 {
            assert(fenced(ps[2]));
            assert(valid_piece(ps[2]));
            lemma_fenced_stops(ps[1], ps[2]);
        }
    }
    lemma_tokens_round_trip(ps, pads);
}

} // verus!
