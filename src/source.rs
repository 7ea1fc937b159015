//! Names of the dump files and the decisions of the resumable download.
//!
//! The transfer itself (HEAD and ranged GET requests, the file on disk) is
//! done by the caller; here are the names it fetches and the reading of the
//! headers it gets back.
use vstd::prelude::*;

use crate::sql::{chars_of, digits_value, is_digit, is_space, lemma_digits_grow, lemma_digits_step, string_of};

verus! {

/// The tables whose dumps are used, in the order of `Table`.
pub open spec fn table_name(i: int) -> Seq<char> {
    if i == 0 {
        "page"@
    } else if i == 1 {
        "redirect"@
    } else {
        "pagelinks"@
    }
}

/// The file name of a table's dump.
pub open spec fn dump_file(wiki: Seq<char>, table: Seq<char>) -> Seq<char> {
    wiki + "-latest-"@ + table + ".sql.gz"@
}

/// Where a table's dump is published.
pub open spec fn dump_url(wiki: Seq<char>, table: Seq<char>) -> Seq<char> {
    "https://dumps.wikimedia.org/"@ + wiki + "/latest/"@ + dump_file(wiki, table)
}

fn table_str(i: usize) -> (r: &'static str)
    requires
        i < 3,
    ensures
        r@ == table_name(i as int),
{
    if i == 0 {
        "page"
    } else if i == 1 {
        "redirect"
    } else {
        "pagelinks"
    }
}

fn file_name(wiki: &str, i: usize) -> (r: String)
    requires
        i < 3,
    ensures
        r@ == dump_file(wiki@, table_name(i as int)),
{
    let mut s = wiki.to_owned();
    s.append("-latest-");
    s.append(table_str(i));
    s.append(".sql.gz");
    s
}

/// The file names of the dumps of `page`, `redirect` and `pagelinks`.
pub fn files(wikiname: &str) -> (r: Vec<String>)
    ensures
        r@.len() == 3,
        forall|i: int| 0 <= i < 3 ==> #[trigger] r@[i]@ == dump_file(wikiname@, table_name(i)),
{
    let mut r: Vec<String> = Vec::new();
    let mut i: usize = 0;
    while i < 3
        invariant
            i <= 3,
            r@.len() == i,
            forall|k: int| 0 <= k < i ==> #[trigger] r@[k]@ == dump_file(wikiname@, table_name(k)),
        decreases 3 - i,
    {
        r.push(file_name(wikiname, i));
        i += 1;
    }
    r
}

/// The addresses of the dumps of `page`, `redirect` and `pagelinks`.
pub fn urls(wikiname: &str) -> (r: Vec<String>)
    ensures
        r@.len() == 3,
        forall|i: int| 0 <= i < 3 ==> #[trigger] r@[i]@ == dump_url(wikiname@, table_name(i)),
{
    let mut r: Vec<String> = Vec::new();
    let mut i: usize = 0;
    while i < 3
        invariant
            i <= 3,
            r@.len() == i,
            forall|k: int| 0 <= k < i ==> #[trigger] r@[k]@ == dump_url(wikiname@, table_name(k)),
        decreases 3 - i,
    {
        let mut s = "https://dumps.wikimedia.org/".to_owned();
        s.append(wikiname);
        s.append("/latest/");
        let f = file_name(wikiname, i);
        s.append(f.as_str());
        assert(s@ =~= dump_url(wikiname@, table_name(i as int)));
        r.push(s);
        i += 1;
    }
    r
}

/// `s` without a leading `+`.
pub open spec fn unsigned_part(s: Seq<char>) -> Seq<char> {
    if s.len() > 0 && s[0] == '+' { s.skip(1) } else { s }
}

pub open spec fn all_digits(d: Seq<char>) -> bool {
    forall|i: int| 0 <= i < d.len() ==> is_digit(#[trigger] d[i])
}

/// The number that `s` writes in decimal: an optional `+`, then one or more
/// digits, where it fits in 64 bits.
pub open spec fn decimal(s: Seq<char>) -> Option<u64> {
    let d = unsigned_part(s);
    if d.len() > 0 && all_digits(d) && digits_value(d) <= u64::MAX {
        Some(digits_value(d) as u64)
    } else {
        None
    }
}

/// Reads a decimal number, as `decimal` has it.
pub fn parse_u64(s: &[char]) -> (r: Option<u64>)
    ensures
        r == decimal(s@),
{
    let n = s.len();
    let start: usize = if n > 0 && s[0] == '+' { 1 } else { 0 };
    let ghost d = unsigned_part(s@);
    assert(d =~= s@.skip(start as int));
    if start == n {
        return None;
    }
    let mut v: u64 = 0;
    let mut k: usize = start;
    while k < n
        invariant
            n == s@.len(),
            start <= k <= n,
            d == s@.skip(start as int),
            d == unsigned_part(s@),
            v == digits_value(d.take(k - start)),
            forall|i: int| 0 <= i < k - start ==> is_digit(#[trigger] d[i]),
        decreases n - k,
    {
        let c = s[k];
        if !('0' <= c && c <= '9') {
            assert(!is_digit(d[k - start]));
            assert(!all_digits(d));
            return None;
        }
        let x = ((c as u32) - ('0' as u32)) as u64;
        proof {
            lemma_digits_step(d, 0, k - start);
            assert(d.take(k - start + 1) =~= d.subrange(0, k - start + 1));
            assert(d.take(k - start) =~= d.subrange(0, k - start));
        }
        if v > 1_844_674_407_370_955_161u64 || (v == 1_844_674_407_370_955_161u64 && x > 5) {
            proof {
                assert(d[k - start] == c);
                assert(digits_value(d.take(k - start + 1)) > u64::MAX);
                lemma_digits_grow(d, 0, k - start + 1, d.len() as int);
                assert(d.take(d.len() as int) =~= d.subrange(0, d.len() as int));
                assert(d.take(d.len() as int) =~= d);
            }
            return None;
        }
        v = v * 10 + x;
        k += 1;
    }
    assert(d.take(k - start) =~= d);
    Some(v)
}

/// `x` is where a header splits at `c`: white space for a space, else `c` itself.
pub open spec fn splits(x: char, c: char) -> bool {
    if c == ' ' { is_space(x) } else { x == c }
}

/// The position of the first character of `s` where it splits at `c`, or its
/// length if there is none.
pub open spec fn first_at(s: Seq<char>, c: char) -> nat
    decreases s.len(),
{
    if s.len() == 0 {
        0
    } else if splits(s[0], c) {
        0
    } else {
        1 + first_at(s.skip(1), c)
    }
}

/// The position of the first character from `from` on where `s` splits at `c`.
fn find(s: &Vec<char>, from: usize, c: char) -> (r: Option<usize>)
    requires
        from <= s@.len(),
    ensures
        ({
            let k = first_at(s@.skip(from as int), c);
            &&& k < s@.len() - from ==> r == Some((from + k) as usize)
            &&& k >= s@.len() - from ==> r is None
        }),
{
    let n = s.len();
    let mut i = from;
    while i < n
        invariant
            n == s@.len(),
            from <= i <= n,
            first_at(s@.skip(from as int), c) == (i - from) + first_at(s@.skip(i as int), c),
        decreases n - i,
    {
        let x = s[i];
        let hit = if c == ' ' { x == ' ' || x == '\t' || x == '\n' || x == '\x0C' || x == '\r' } else { x == c };
        if hit {
            return Some(i);
        }
        assert(s@.skip(i as int).skip(1) =~= s@.skip(i + 1));
        i += 1;
    }
    None
}

fn slice_of(s: &Vec<char>, a: usize, b: usize) -> (r: Vec<char>)
    requires
        a <= b <= s@.len(),
    ensures
        r@ == s@.subrange(a as int, b as int),
{
    let mut r: Vec<char> = Vec::new();
    let mut i = a;
    while i < b
        invariant
            a <= i <= b,
            b <= s@.len(),
            r@ == s@.subrange(a as int, i as int),
        decreases b - i,
    {
        r.push(s[i]);
        assert(r@ =~= s@.subrange(a as int, i + 1));
        i += 1;
    }
    r
}

/// A parsed HTTP `Content-Range` header: `<unit> <first>-<last>/<total>`,
/// where `*` stands for an unknown range or total.
pub struct Resume {
    pub unit: String,
    pub total: Option<u64>,
    /// The first and the last byte of the range.
    pub range: Option<(u64, u64)>,
}

/// What in a `Content-Range` header could not be read.
#[derive(Debug, Clone, Copy, PartialEq, Eq, Structural)]
pub enum RangeError {
    NoSpace,
    NoSlash,
    NoDash,
    BadNumber,
}

pub open spec fn star() -> Seq<char> {
    seq!['*']
}

/// The total of a `Content-Range` header.
pub open spec fn total_of(p: Seq<char>) -> Result<Option<u64>, RangeError> {
    if p == star() {
        Ok(None)
    } else {
        match decimal(p) {
            Some(v) => Ok(Some(v)),
            None => Err(RangeError::BadNumber),
        }
    }
}

/// The range of a `Content-Range` header.
pub open spec fn range_of(p: Seq<char>) -> Result<Option<(u64, u64)>, RangeError> {
    if p == star() {
        Ok(None)
    } else {
        let k = first_at(p, '-') as int;
        if k >= p.len() {
            Err(RangeError::NoDash)
        } else {
            match (decimal(p.take(k)), decimal(p.skip(k + 1))) {
                (Some(a), Some(b)) => Ok(Some((a, b))),
                _ => Err(RangeError::BadNumber),
            }
        }
    }
}

/// A `Content-Range` header read as unit, total and range, or the first
/// thing in it that could not be read.
pub open spec fn content_range(h: Seq<char>) -> Result<(Seq<char>, Option<u64>, Option<(u64, u64)>), RangeError> {
    let i = first_at(h, ' ') as int;
    if i >= h.len() {
        Err(RangeError::NoSpace)
    } else {
        let rest = h.skip(i + 1);
        let j = first_at(rest, '/') as int;
        if j >= rest.len() {
            Err(RangeError::NoSlash)
        } else {
            match total_of(rest.skip(j + 1)) {
                Err(e) => Err(e),
                Ok(t) => match range_of(rest.take(j)) {
                    Err(e) => Err(e),
                    Ok(rg) => Ok((h.take(i), t, rg)),
                },
            }
        }
    }
}

fn is_star(s: &Vec<char>) -> (r: bool)
    ensures
        r == (s@ == star()),
{
    let r = s.len() == 1 && s[0] == '*';
    if r {
        assert(s@ =~= star());
    }
    r
}

fn parse_total(p: &Vec<char>) -> (r: Result<Option<u64>, RangeError>)
    ensures
        r == total_of(p@),
{
    if is_star(p) {
        Ok(None)
    } else {
        match parse_u64(p.as_slice()) {
            Some(v) => Ok(Some(v)),
            None => Err(RangeError::BadNumber),
        }
    }
}

fn parse_range(p: &Vec<char>) -> (r: Result<Option<(u64, u64)>, RangeError>)
    ensures
        r == range_of(p@),
{
    let n = p.len();
    if is_star(p) {
        return Ok(None);
    }
    let dash = match find(p, 0, '-') {
        Some(k) => k,
        None => {
            assert(p@.skip(0) =~= p@);
            return Err(RangeError::NoDash);
        },
    };
    assert(p@.skip(0) =~= p@);
    let first = slice_of(p, 0, dash);
    let last = slice_of(p, dash + 1, n);
    assert(first@ =~= p@.take(dash as int));
    assert(last@ =~= p@.skip(dash + 1));
    match (parse_u64(first.as_slice()), parse_u64(last.as_slice())) {
        (Some(a), Some(b)) => Ok(Some((a, b))),
        _ => Err(RangeError::BadNumber),
    }
}

/// Reads a `Content-Range` header, if there is one.
#[verifier::rlimit(60)]
pub fn should_resume(header: Option<&str>) -> (r: Result<Option<Resume>, RangeError>)
    ensures
        match header {
            None => r matches Ok(None),
            Some(h) => match content_range(h@) {
                Ok((u, t, rg)) => r matches Ok(Some(res)) && res.unit@ == u && res.total == t && res.range == rg,
                Err(e) => r == Err::<Option<Resume>, RangeError>(e),
            },
        },
{
    let h = match header {
        Some(h) => h,
        None => return Ok(None),
    };
    let s = chars_of(h);
    let n = s.len();
    assert(s@.skip(0) =~= s@);
    let sp = match find(&s, 0, ' ') {
        Some(i) => i,
        None => return Err(RangeError::NoSpace),
    };
    let unit = string_of(slice_of(&s, 0, sp).as_slice());
    assert(unit@ =~= s@.take(sp as int));
    let ghost rest = s@.skip(sp + 1);
    let sl = match find(&s, sp + 1, '/') {
        Some(j) => j,
        None => return Err(RangeError::NoSlash),
    };
    let range_part = slice_of(&s, sp + 1, sl);
    let total_part = slice_of(&s, sl + 1, n);
    assert(range_part@ =~= rest.take(sl - sp - 1));
    assert(total_part@ =~= rest.skip(sl - sp));
    let total = match parse_total(&total_part) {
        Ok(t) => t,
        Err(e) => return Err(e),
    };
    let range = match parse_range(&range_part) {
        Ok(rg) => rg,
        Err(e) => return Err(e),
    };
    Ok(Some(Resume { unit, total, range }))
}

/// The offset at which the body of a ranged response starts: the first byte
/// of the `Content-Range` header's range, or 0 where it gives none.
pub fn resume_offset(header: Option<&str>) -> (r: Result<u64, RangeError>)
    ensures
        r == match header {
            None => Ok(0),
            Some(h) => match content_range(h@) {
                Ok((_, _, Some((first, _)))) => Ok(first),
                Ok(_) => Ok(0),
                Err(e) => Err::<u64, RangeError>(e),
            },
        },
{
    match should_resume(header) {
        Ok(Some(Resume { range: Some((first, _)), .. })) => Ok(first),
        Ok(_) => Ok(0),
        Err(e) => Err(e),
    }
}

/// Whether a local file of `local` bytes is as long as the remote one, whose
/// `Content-Length` header is `remote`.
pub fn is_fresh(local: u64, remote: Option<&str>) -> (r: bool)
    ensures
        r == (remote matches Some(t) && decimal(t@) == Some(local)),
{
    match remote {
        Some(t) => {
            let c = chars_of(t);
            match parse_u64(c.as_slice()) {
                Some(v) => v == local,
                None => false,
            }
        },
        None => false,
    }
}

} // verus!
