//! One line of text into a named birth date.

use crate::calendar::{valid_ymd, ymd_exists, CalendarDate};
use vstd::prelude::*;

verus! {

/// Why a line did not give a record.
#[derive(Clone, Copy, Debug, PartialEq, Eq, Structural)]
pub enum ParseError {
    /// The line holds nothing but white space.
    EmptyRecord,
    /// The date field is not three dash-separated decimal numerals.
    InvalidDateFormat,
    /// The three numbers name no day of the calendar.
    InvalidDate,
}

impl ParseError {
    /// A short message for the error.
    pub fn message(&self) -> (r: &'static str)
        ensures
            r@ == (if *self is EmptyRecord {
                "No data"@
            } else {
                "Invalid date"@
            }),
    {
        match self {
            ParseError::EmptyRecord => "No data",
            _ => "Invalid date",
        }
    }
}

/// A named birth date.
#[derive(Debug)]
pub struct Person {
    pub name: String,
    pub birth: CalendarDate,
}

/// Unicode's White_Space property: tab through carriage return, space, next
/// line, no-break space, ogham space mark, en quad through hair space, line
/// and paragraph separators, narrow no-break space, medium mathematical space
/// and ideographic space.
pub open spec fn white_space(c: char) -> bool {
    let u = c as u32;
    (9 <= u <= 13) || u == 32 || u == 0x85 || u == 0xA0 || u == 0x1680 || (0x2000 <= u <= 0x200A)
        || u == 0x2028 || u == 0x2029 || u == 0x202F || u == 0x205F || u == 0x3000
}

/// Relies on `char::is_whitespace`, which holds of exactly the characters
/// with Unicode's White_Space property.
#[verifier::external_body]
fn is_white(c: char) -> (r: bool)
    ensures
        r == white_space(c),
{
    c.is_whitespace()
}

/// Relies on std's `FromIterator<&char>` for `String`: the string of exactly
/// these characters, in order.
#[verifier::external_body]
fn string_of(chars: &Vec<char>) -> (r: String)
    ensures
        r@ == chars@,
{
    chars.iter().collect()
}

/// The name given to a record that names nobody.
pub open spec fn primary_user() -> Seq<char> {
    seq!['Y', 'o', 'u']
}

/// The text after its leading white space.
pub open spec fn skip_white(s: Seq<char>) -> Seq<char>
    decreases s.len(),
{
    if s.len() > 0 && white_space(s[0]) {
        skip_white(s.drop_first())
    } else {
        s
    }
}

/// How many characters the text starts with before white space or its end.
pub open spec fn word_len(s: Seq<char>) -> nat
    decreases s.len(),
{
    if s.len() > 0 && !white_space(s[0]) {
        1 + word_len(s.drop_first())
    } else {
        0
    }
}

/// The first white-space separated word (empty where there is none).
pub open spec fn first_word(s: Seq<char>) -> Seq<char> {
    skip_white(s).take(word_len(skip_white(s)) as int)
}

/// The text after the first word.
pub open spec fn after_first_word(s: Seq<char>) -> Seq<char> {
    skip_white(s).skip(word_len(skip_white(s)) as int)
}

/// Position of the first `-`, or the length where there is none.
pub open spec fn dash_index(s: Seq<char>) -> nat
    decreases s.len(),
{
    if s.len() == 0 || s[0] == '-' {
        0
    } else {
        1 + dash_index(s.drop_first())
    }
}

/// A non-empty run of decimal digits.
pub open spec fn is_numeral(s: Seq<char>) -> bool {
    s.len() > 0 && forall|k: int| 0 <= k < s.len() ==> '0' <= #[trigger] s[k] <= '9'
}

/// The number that a run of decimal digits writes.
pub open spec fn numeral_value(s: Seq<char>) -> nat
    decreases s.len(),
{
    if s.len() == 0 {
        0
    } else {
        (10 * numeral_value(s.drop_last()) + (s.last() as int - '0' as int)) as nat
    }
}

/// The three dash-separated fields of a date text: the text before the first
/// dash, between the first and second, and after the second.
pub open spec fn date_fields(t: Seq<char>) -> (Seq<char>, Seq<char>, Seq<char>) {
    let i = dash_index(t) as int;
    let rest = t.skip(i + 1);
    let j = dash_index(rest) as int;
    (t.take(i), rest.take(j), rest.skip(j + 1))
}

/// The text splits on `-` into exactly three numerals.
pub open spec fn is_date_text(t: Seq<char>) -> bool {
    let i = dash_index(t) as int;
    let rest = t.skip(i + 1);
    let j = dash_index(rest) as int;
    &&& i < t.len()
    &&& j < rest.len()
    &&& is_numeral(date_fields(t).0)
    &&& is_numeral(date_fields(t).1)
    &&& is_numeral(date_fields(t).2)
}

/// What a line parses to: the name and the year, month and day, or the error.
pub open spec fn parse_outcome(s: Seq<char>) -> Result<(Seq<char>, int, int, int), ParseError> {
    let date = first_word(s);
    let second = first_word(after_first_word(s));
    let (yf, mf, df) = date_fields(date);
    let (y, m, d) = (numeral_value(yf) as int, numeral_value(mf) as int, numeral_value(df) as int);
    if skip_white(s).len() == 0 {
        Err(ParseError::EmptyRecord)
    } else if !is_date_text(date) {
        Err(ParseError::InvalidDateFormat)
    } else if !valid_ymd(y, m, d) {
        Err(ParseError::InvalidDate)
    } else if second.len() == 0 {
        Ok((primary_user(), y, m, d))
    } else {
        Ok((second, y, m, d))
    }
}

/// The decimal digit character for `n` in `0..10`.
pub open spec fn digit_char(n: int) -> char {
    seq!['0', '1', '2', '3', '4', '5', '6', '7', '8', '9'][n]
}

/// The last `width` decimal digits of `n`, zero-padded.
pub open spec fn fixed_digits(n: nat, width: nat) -> Seq<char>
    decreases width,
{
    if width == 0 {
        Seq::empty()
    } else {
        fixed_digits(n / 10, (width - 1) as nat).push(digit_char(n as int % 10))
    }
}

/// The date written `YYYY-MM-DD`.
pub open spec fn iso_text(d: CalendarDate) -> Seq<char> {
    fixed_digits(d.year as nat, 4) + seq!['-'] + fixed_digits(d.month as nat, 2) + seq!['-']
        + fixed_digits(d.day as nat, 2)
}

/// The characters of a text, in order.
fn chars_of(s: &str) -> (r: Vec<char>)
    ensures
        r@ == s@,
{
    let mut out: Vec<char> = Vec::new();
    for c in it: s.chars()
        invariant
            out@ == it.seq().take(it.index() as int),
    {
        out.push(c);
    }
    out
}

/// Index of the first character at or after `start` that is not white space.
fn skip_white_from(v: &Vec<char>, start: usize) -> (r: usize)
    requires
        start <= v.len(),
    ensures
        start <= r <= v.len(),
        v@.skip(r as int) == skip_white(v@.skip(start as int)),
{
    let mut i = start;
    while i < v.len() && is_white(v[i])
        invariant
            start <= i <= v.len(),
            skip_white(v@.skip(i as int)) == skip_white(v@.skip(start as int)),
        decreases v.len() - i,
    {
        assert(v@.skip(i as int).drop_first() =~= v@.skip(i + 1));
        i = i + 1;
    }
    assert(i == v.len() ==> v@.skip(i as int) =~= Seq::<char>::empty());
    i
}

/// Index just past the word that starts at `start`.
fn word_end_from(v: &Vec<char>, start: usize) -> (r: usize)
    requires
        start <= v.len(),
    ensures
        start <= r <= v.len(),
        r - start == word_len(v@.skip(start as int)),
{
    let mut i = start;
    while i < v.len() && !is_white(v[i])
        invariant
            start <= i <= v.len(),
            word_len(v@.skip(start as int)) == (i - start) + word_len(v@.skip(i as int)),
        decreases v.len() - i,
    {
        assert(v@.skip(i as int).drop_first() =~= v@.skip(i + 1));
        i = i + 1;
    }
    i
}

/// Index of the first `-` at or after `start`, or the length.
fn dash_from(v: &Vec<char>, start: usize) -> (r: usize)
    requires
        start <= v.len(),
    ensures
        start <= r <= v.len(),
        r - start == dash_index(v@.skip(start as int)),
{
    let mut i = start;
    while i < v.len() && v[i] != '-'
        invariant
            start <= i <= v.len(),
            dash_index(v@.skip(start as int)) == (i - start) + dash_index(v@.skip(i as int)),
        decreases v.len() - i,
    {
        assert(v@.skip(i as int).drop_first() =~= v@.skip(i + 1));
        i = i + 1;
    }
    i
}

/// Largest number that a date field is read up to; anything above stands
/// as one more than it.
const NUMERAL_CAP: u64 = 1_000_000_000;

spec fn capped(n: nat) -> nat {
    if n > NUMERAL_CAP { (NUMERAL_CAP + 1) as nat } else { n }
}

/// The value of the numeral `v[lo..hi]`, capped, where it is one.
fn read_numeral(v: &Vec<char>, lo: usize, hi: usize) -> (r: Option<u64>)
    requires
        lo <= hi <= v.len(),
    ensures
        r is Some <==> is_numeral(v@.subrange(lo as int, hi as int)),
        r is Some ==> r->0 == capped(numeral_value(v@.subrange(lo as int, hi as int))),
{
    if lo == hi {
        return None;
    }
    let mut acc: u64 = 0;
    let mut i = lo;
    while i < hi
        invariant
            lo <= i <= hi <= v.len(),
            forall|k: int| lo <= k < i ==> '0' <= #[trigger] v@[k] <= '9',
            acc == capped(numeral_value(v@.subrange(lo as int, i as int))),
        decreases hi - i,
    {
        let c = v[i];
        if c < '0' || c > '9' {
            assert(v@.subrange(lo as int, hi as int)[i - lo] == c);
            return None;
        }
        let digit = (c as u32 - '0' as u32) as u64;
        assert(v@.subrange(lo as int, i + 1).drop_last() =~= v@.subrange(lo as int, i as int));
        if acc > NUMERAL_CAP {
            acc = NUMERAL_CAP + 1;
        } else {
            acc = acc * 10 + digit;
            if acc > NUMERAL_CAP {
                acc = NUMERAL_CAP + 1;
            }
        }
        i = i + 1;
    }
    assert forall|k: int| 0 <= k < v@.subrange(lo as int, hi as int).len() implies '0' <= #[trigger] v@.subrange(lo as int, hi as int)[k] <= '9' by {
        assert(v@.subrange(lo as int, hi as int)[k] == v@[lo + k]);
    }
    Some(acc)
}

/// The characters `v[lo..hi]`.
fn copy_range(v: &Vec<char>, lo: usize, hi: usize) -> (r: Vec<char>)
    requires
        lo <= hi <= v.len(),
    ensures
        r@ == v@.subrange(lo as int, hi as int),
{
    let mut out: Vec<char> = Vec::new();
    let mut i = lo;
    while i < hi
        invariant
            lo <= i <= hi <= v.len(),
            out@ == v@.subrange(lo as int, i as int),
        decreases hi - i,
    {
        out.push(v[i]);
        assert(out@ =~= v@.subrange(lo as int, i + 1));
        i = i + 1;
    }
    out
}

/// The year, month and day that a date text writes, capped, or the format
/// error.
fn read_date_text(t: &Vec<char>) -> (r: Result<(u64, u64, u64), ParseError>)
    ensures
        r is Ok <==> is_date_text(t@),
        r is Err ==> r == Err::<(u64, u64, u64), ParseError>(ParseError::InvalidDateFormat),
        r is Ok ==> ({
            let (yf, mf, df) = date_fields(t@);
            &&& r->Ok_0.0 == capped(numeral_value(yf))
            &&& r->Ok_0.1 == capped(numeral_value(mf))
            &&& r->Ok_0.2 == capped(numeral_value(df))
        }),
{
    let n = t.len();
    let i = dash_from(t, 0);
    assert(t@.skip(0) =~= t@);
    if i == n {
        return Err(ParseError::InvalidDateFormat);
    }
    let j = dash_from(t, i + 1);
    let ghost rest = t@.skip(i + 1);
    assert(rest.take(j - (i + 1)) =~= t@.subrange(i + 1, j as int));
    assert(t@.take(i as int) =~= t@.subrange(0, i as int));
    if j == n {
        return Err(ParseError::InvalidDateFormat);
    }
    assert(rest.skip(j - (i + 1) + 1) =~= t@.subrange(j + 1, n as int));
    let y = read_numeral(t, 0, i);
    let m = read_numeral(t, i + 1, j);
    let d = read_numeral(t, j + 1, n);
    match (y, m, d) {
        (Some(y), Some(m), Some(d)) => Ok((y, m, d)),
        _ => Err(ParseError::InvalidDateFormat),
    }
}

impl Person {
    /// The record names the primary user.
    pub fn is_primary_user(&self) -> (r: bool)
        ensures
            r == (self.name@ == primary_user()),
    {
        self.name == string_of(&vec!['Y', 'o', 'u'])
    }

    /// Reads a record `YYYY-MM-DD [NAME] [ignored...]`: a date field, then an
    /// optional name; without a name the record is the primary user's.
    pub fn from_str(s: &str) -> (r: Result<Person, ParseError>)
        ensures
            match parse_outcome(s@) {
                Err(e) => r == Err::<Person, ParseError>(e),
                Ok((name, y, m, d)) => r is Ok && r->Ok_0.name@ == name && r->Ok_0.birth == (
                CalendarDate { year: y as i32, month: m as u32, day: d as u32 }),
            },
            r is Ok ==> r->Ok_0.birth.wf(),
    {
        let v = chars_of(s);
        let a = skip_white_from(&v, 0);
        assert(v@.skip(0) =~= v@);
        if a == v.len() {
            return Err(ParseError::EmptyRecord);
        }
        let b = word_end_from(&v, a);
        let date = copy_range(&v, a, b);
        assert(v@.skip(a as int).take(b - a) =~= v@.subrange(a as int, b as int));
        let (y, m, d) = match read_date_text(&date) {
            Ok(parts) => parts,
            Err(e) => {
                return Err(e);
            },
        };
        if !ymd_exists(y as i32, m as u32, d as u32) {
            return Err(ParseError::InvalidDate);
        }
        let birth = CalendarDate { year: y as i32, month: m as u32, day: d as u32 };
        let c = skip_white_from(&v, b);
        let e = word_end_from(&v, c);
        assert(v@.skip(a as int).skip(b - a) =~= v@.skip(b as int));
        assert(v@.skip(c as int).take(e - c) =~= v@.subrange(c as int, e as int));
        let name = if c == e {
            string_of(&vec!['Y', 'o', 'u'])
        } else {
            string_of(&copy_range(&v, c, e))
        };
        Ok(Person { name, birth })
    }
}

/// The records that the lines give, in order; a line that does not parse
/// gives none.
pub open spec fn parsed_records(lines: Seq<Seq<char>>) -> Seq<(Seq<char>, int, int, int)>
    decreases lines.len(),
{
    if lines.len() == 0 {
        Seq::empty()
    } else {
        let before = parsed_records(lines.drop_last());
        match parse_outcome(lines.last()) {
            Ok(rec) => before.push(rec),
            Err(_) => before,
        }
    }
}

/// The texts of the lines.
pub open spec fn texts_of(lines: Seq<String>) -> Seq<Seq<char>> {
    lines.map_values(|l: String| l@)
}

/// The person's record as plain values.
pub open spec fn record_of(p: Person) -> (Seq<char>, int, int, int) {
    (p.name@, p.birth.year as int, p.birth.month as int, p.birth.day as int)
}

/// Reads every line, keeping the records of the lines that parse.
pub fn parse_records(lines: &Vec<String>) -> (r: Vec<Person>)
    ensures
        r@.len() == parsed_records(texts_of(lines@)).len(),
        forall|k: int|
            0 <= k < r@.len() ==> #[trigger] record_of(r@[k]) == parsed_records(
                texts_of(lines@),
            )[k],
        forall|k: int| 0 <= k < r@.len() ==> (#[trigger] r@[k]).birth.wf(),
{
    let ghost texts = texts_of(lines@);
    let mut out: Vec<Person> = Vec::new();
    let mut i: usize = 0;
    while i < lines.len()
        invariant
            i <= lines.len(),
            texts == texts_of(lines@),
            out@.len() == parsed_records(texts.take(i as int)).len(),
            forall|k: int|
                0 <= k < out@.len() ==> #[trigger] record_of(out@[k]) == parsed_records(
                    texts.take(i as int),
                )[k],
            forall|k: int| 0 <= k < out@.len() ==> (#[trigger] out@[k]).birth.wf(),
        decreases lines.len() - i,
    {
        assert(texts.take(i + 1).drop_last() =~= texts.take(i as int));
        assert(texts.take(i + 1).last() == lines@[i as int]@);
        let ghost before = out@;
        match Person::from_str(lines[i].as_str()) {
            Ok(p) => {
                out.push(p);
                assert(forall|k: int| 0 <= k < before.len() ==> out@[k] == before[k]);
                assert(record_of(out@[before.len() as int]) == parse_outcome(texts[i as int])->Ok_0);
            },
            Err(_) => {},
        }
        i = i + 1;
    }
    assert(texts.take(lines.len() as int) =~= texts);
    assert forall|k: int| 0 <= k < out@.len() implies #[trigger] record_of(out@[k])
        == parsed_records(texts_of(lines@))[k] by {
        assert(record_of(out@[k]) == parsed_records(texts.take(lines.len() as int))[k]);
    }
    out
}

} // verus!
