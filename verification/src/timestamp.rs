//! Timestamps of second precision, without a timezone.
//!
//! A note carries a `created` and an `updated` timestamp, written in its
//! header as `YYYY-MM-DD HH:MM:SS`. The store orders notes by `updated`,
//! and time-mode queries compare against a parsed timestamp, so the type
//! needs a total chronological order as well as a parser and a formatter
//! for the fixed header format.

use vstd::prelude::*;
use vstd::string::StrSliceExecFns;
use vstd::string::StringExecFns;

verus! {

/// A calendar timestamp of second precision. Two timestamps compare
/// chronologically through `key`, a strictly monotone linearisation of
/// the six fields.
#[derive(Debug, Clone, Copy, PartialEq, Eq, Structural)]
pub struct Timestamp {
    pub year: u16,
    pub month: u8,
    pub day: u8,
    pub hour: u8,
    pub minute: u8,
    pub second: u8,
}

/// A year has 366 days when divisible by 4, except century years not
/// divisible by 400.
pub open spec fn spec_is_leap_year(y: int) -> bool {
    y % 4 == 0 && (y % 100 != 0 || y % 400 == 0)
}

/// The number of days of month `m` of year `y` (months count from 1).
pub open spec fn spec_days_in_month(y: int, m: int) -> int {
    if m == 2 {
        if spec_is_leap_year(y) {
            29
        } else {
            28
        }
    } else if m == 4 || m == 6 || m == 9 || m == 11 {
        30
    } else {
        31
    }
}

impl Timestamp {
    /// A valid calendar timestamp: the fields lie in their calendar
    /// ranges and the year fits the four-digit header format.
    pub open spec fn wf(self) -> bool {
        &&& self.year <= 9999
        &&& 1 <= self.month <= 12
        &&& 1 <= self.day <= spec_days_in_month(self.year as int, self.month as int)
        &&& self.hour <= 23
        &&& self.minute <= 59
        &&& self.second <= 59
    }

    /// A linearisation of the six fields that orders timestamps
    /// chronologically: each factor exceeds the range of the fields
    /// below it, so the order of keys is the lexicographic order of
    /// `(year, month, day, hour, minute, second)`.
    pub open spec fn key(self) -> int {
        self.second + 61 * (self.minute + 61 * (self.hour + 25 * (self.day + 32 * (self.month
            + 13 * self.year))))
    }

    /// Whether `self` is strictly before `other` in chronological order.
    pub fn lt(&self, other: &Timestamp) -> (r: bool)
        ensures
            r == (self.key() < other.key()),
    {
        self.key_u64() < other.key_u64()
    }

    /// Whether `self` is at or after `other` in chronological order.
    pub fn ge(&self, other: &Timestamp) -> (r: bool)
        ensures
            r == (self.key() >= other.key()),
    {
        self.key_u64() >= other.key_u64()
    }

    /// The linearisation, computed in machine arithmetic; even the
    /// largest field values stay far below `u64::MAX`.
    pub fn key_u64(&self) -> (r: u64)
        ensures
            r == self.key(),
    {
        self.second as u64 + 61 * (self.minute as u64 + 61 * (self.hour as u64 + 25
            * (self.day as u64 + 32 * (self.month as u64 + 13 * self.year as u64))))
    }
}

/// The value of an ASCII digit, `-1` for any other character.
pub open spec fn digit_val(c: char) -> int {
    if '0' <= c <= '9' {
        c as u32 - 48
    } else {
        -1
    }
}

/// Whether `c` is an ASCII digit.
pub open spec fn is_digit(c: char) -> bool {
    '0' <= c <= '9'
}

/// The ASCII digit for a value between 0 and 9, `'9'` beyond.
pub open spec fn digit_char(d: int) -> char {
    if d == 0 {
        '0'
    } else if d == 1 {
        '1'
    } else if d == 2 {
        '2'
    } else if d == 3 {
        '3'
    } else if d == 4 {
        '4'
    } else if d == 5 {
        '5'
    } else if d == 6 {
        '6'
    } else if d == 7 {
        '7'
    } else if d == 8 {
        '8'
    } else {
        '9'
    }
}

/// `n` written as two digits, zero-padded.
pub open spec fn pad2(n: int) -> Seq<char> {
    seq![digit_char(n / 10 % 10), digit_char(n % 10)]
}

/// `n` written as four digits, zero-padded.
pub open spec fn pad4(n: int) -> Seq<char> {
    seq![
        digit_char(n / 1000 % 10),
        digit_char(n / 100 % 10),
        digit_char(n / 10 % 10),
        digit_char(n % 10),
    ]
}

/// The date part of the header format: `YYYY-MM-DD`.
pub open spec fn fmt_date(t: Timestamp) -> Seq<char> {
    pad4(t.year as int) + seq!['-'] + pad2(t.month as int) + seq!['-'] + pad2(t.day as int)
}

/// The full header format: `YYYY-MM-DD HH:MM:SS`.
pub open spec fn fmt_ts(t: Timestamp) -> Seq<char> {
    fmt_date(t) + seq![' '] + pad2(t.hour as int) + seq![':'] + pad2(t.minute as int) + seq![':']
        + pad2(t.second as int)
}

/// The value of the two digits of `s` at `i`.
pub open spec fn two_digit_val(s: Seq<char>, i: int) -> int {
    digit_val(s[i]) * 10 + digit_val(s[i + 1])
}

/// The value of the four digits of `s` at `i`.
pub open spec fn four_digit_val(s: Seq<char>, i: int) -> int {
    digit_val(s[i]) * 1000 + digit_val(s[i + 1]) * 100 + digit_val(s[i + 2]) * 10 + digit_val(
        s[i + 3],
    )
}

/// Whether `s` has the exact shape `YYYY-MM-DD HH:MM:SS`: nineteen
/// characters, digits and separators in their places.
pub open spec fn ts_text_shape(s: Seq<char>) -> bool {
    &&& s.len() == 19
    &&& is_digit(s[0]) && is_digit(s[1]) && is_digit(s[2]) && is_digit(s[3])
    &&& s[4] == '-'
    &&& is_digit(s[5]) && is_digit(s[6])
    &&& s[7] == '-'
    &&& is_digit(s[8]) && is_digit(s[9])
    &&& s[10] == ' '
    &&& is_digit(s[11]) && is_digit(s[12])
    &&& s[13] == ':'
    &&& is_digit(s[14]) && is_digit(s[15])
    &&& s[16] == ':'
    &&& is_digit(s[17]) && is_digit(s[18])
}

/// The timestamp the digits of a well-shaped `s` spell.
pub open spec fn ts_of_text(s: Seq<char>) -> Timestamp {
    Timestamp {
        year: four_digit_val(s, 0) as u16,
        month: two_digit_val(s, 5) as u8,
        day: two_digit_val(s, 8) as u8,
        hour: two_digit_val(s, 11) as u8,
        minute: two_digit_val(s, 14) as u8,
        second: two_digit_val(s, 17) as u8,
    }
}

/// What parsing a header timestamp yields: the spelled timestamp when
/// the text is well-shaped and the fields lie in their calendar
/// ranges, nothing otherwise.
pub open spec fn parse_ts_spec(s: Seq<char>) -> Option<Timestamp> {
    if ts_text_shape(s) && ts_of_text(s).wf() {
        Some(ts_of_text(s))
    } else {
        None
    }
}

/// Whether year `y` has a 29th of February.
pub fn is_leap_year(y: u16) -> (r: bool)
    ensures
        r == spec_is_leap_year(y as int),
{
    y % 4 == 0 && (y % 100 != 0 || y % 400 == 0)
}

/// The number of days of month `m` of year `y`.
pub fn days_in_month(y: u16, m: u8) -> (r: u8)
    ensures
        r == spec_days_in_month(y as int, m as int),
{
    if m == 2 {
        if is_leap_year(y) {
            29
        } else {
            28
        }
    } else if m == 4 || m == 6 || m == 9 || m == 11 {
        30
    } else {
        31
    }
}

impl Timestamp {
    /// The exec twin of `wf`.
    pub fn check_wf(&self) -> (r: bool)
        ensures
            r == self.wf(),
    {
        self.year <= 9999 && 1 <= self.month && self.month <= 12 && 1 <= self.day && self.day
            <= days_in_month(self.year, self.month) && self.hour <= 23 && self.minute <= 59
            && self.second <= 59
    }
}

/// The value of an ASCII digit character, if it is one.
pub(crate) fn digit_value(c: char) -> (r: Option<u8>)
    ensures
        match r {
            Some(d) => is_digit(c) && d == digit_val(c) && d <= 9,
            None => !is_digit(c),
        },
{
    let u = c as u32;
    if 48 <= u && u <= 57 {
        Some((u - 48) as u8)
    } else {
        None
    }
}

/// The two digits of `s` at `i`, as a number.
fn two_digits(s: &str, i: usize) -> (r: Option<u8>)
    requires
        i + 2 <= s@.len(),
        s@.len() <= usize::MAX,
    ensures
        match r {
            Some(d) => is_digit(s@[i as int]) && is_digit(s@[i + 1]) && d == two_digit_val(
                s@,
                i as int,
            ),
            None => !(is_digit(s@[i as int]) && is_digit(s@[i + 1])),
        },
{
    match (digit_value(s.get_char(i)), digit_value(s.get_char(i + 1))) {
        (Some(hi), Some(lo)) => Some(10 * hi + lo),
        _ => None,
    }
}

/// Parses a full `YYYY-MM-DD HH:MM:SS` timestamp, rejecting any other
/// shape and any field outside its calendar range.
pub fn parse_ts(s: &str) -> (r: Option<Timestamp>)
    ensures
        r == parse_ts_spec(s@),
{
    let n = s.unicode_len();
    if n != 19 {
        return None;
    }
    if !(s.get_char(4) == '-' && s.get_char(7) == '-' && s.get_char(10) == ' ' && s.get_char(13)
        == ':' && s.get_char(16) == ':') {
        return None;
    }
    let y = match (two_digits(s, 0), two_digits(s, 2)) {
        (Some(hi), Some(lo)) => 100 * (hi as u16) + (lo as u16),
        _ => {
            return None;
        },
    };
    let month = match two_digits(s, 5) {
        Some(d) => d,
        None => {
            return None;
        },
    };
    let day = match two_digits(s, 8) {
        Some(d) => d,
        None => {
            return None;
        },
    };
    let hour = match two_digits(s, 11) {
        Some(d) => d,
        None => {
            return None;
        },
    };
    let minute = match two_digits(s, 14) {
        Some(d) => d,
        None => {
            return None;
        },
    };
    let second = match two_digits(s, 17) {
        Some(d) => d,
        None => {
            return None;
        },
    };
    let t = Timestamp { year: y, month, day, hour, minute, second };
    assert(y == four_digit_val(s@, 0));
    assert(t == ts_of_text(s@));
    if t.check_wf() {
        Some(t)
    } else {
        None
    }
}

/// The ASCII digit for a value below ten.
pub(crate) fn digit_str(d: u8) -> (r: &'static str)
    requires
        d <= 9,
    ensures
        r@ == seq![digit_char(d as int)],
{
    proof {
        reveal_strlit("0");
        reveal_strlit("1");
        reveal_strlit("2");
        reveal_strlit("3");
        reveal_strlit("4");
        reveal_strlit("5");
        reveal_strlit("6");
        reveal_strlit("7");
        reveal_strlit("8");
        reveal_strlit("9");
    }
    let r = match d {
        0 => "0",
        1 => "1",
        2 => "2",
        3 => "3",
        4 => "4",
        5 => "5",
        6 => "6",
        7 => "7",
        8 => "8",
        _ => "9",
    };
    proof {
        assert(r@ =~= seq![digit_char(d as int)]);
    }
    r
}

/// Writes `n` after `out` as two digits, zero-padded.
fn append_pad2(out: &mut String, n: u8)
    ensures
        final(out)@ == old(out)@ + pad2(n as int),
{
    out.append(digit_str(n / 10 % 10));
    out.append(digit_str(n % 10));
    proof {
        assert(final(out)@ =~= old(out)@ + pad2(n as int));
    }
}

/// Writes `n` after `out` as four digits, zero-padded.
fn append_pad4(out: &mut String, n: u16)
    ensures
        final(out)@ == old(out)@ + pad4(n as int),
{
    out.append(digit_str((n / 1000 % 10) as u8));
    out.append(digit_str((n / 100 % 10) as u8));
    out.append(digit_str((n / 10 % 10) as u8));
    out.append(digit_str((n % 10) as u8));
    proof {
        assert(final(out)@ =~= old(out)@ + pad4(n as int));
    }
}

/// Writes the date part of `t`, `YYYY-MM-DD`, after `out`.
pub fn append_date(out: &mut String, t: &Timestamp)
    ensures
        final(out)@ == old(out)@ + fmt_date(*t),
{
    append_pad4(out, t.year);
    out.append("-");
    append_pad2(out, t.month);
    out.append("-");
    append_pad2(out, t.day);
    proof {
        reveal_strlit("-");
        assert(final(out)@ =~= old(out)@ + fmt_date(*t));
    }
}

/// Formats `t` in the header format `YYYY-MM-DD HH:MM:SS`.
pub fn format_ts(t: &Timestamp) -> (r: String)
    ensures
        r@ == fmt_ts(*t),
{
    let mut out = String::new();
    append_date(&mut out, t);
    out.append(" ");
    append_pad2(&mut out, t.hour);
    out.append(":");
    append_pad2(&mut out, t.minute);
    out.append(":");
    append_pad2(&mut out, t.second);
    proof {
        reveal_strlit(" ");
        reveal_strlit(":");
        assert(out@ =~= fmt_ts(*t));
    }
    out
}

/// The compact form `YYMMDDHHMMSS` that new note files are named by.
pub open spec fn fmt_compact(t: Timestamp) -> Seq<char> {
    pad2(t.year as int % 100) + pad2(t.month as int) + pad2(t.day as int) + pad2(t.hour as int)
        + pad2(t.minute as int) + pad2(t.second as int)
}

/// Formats `t` in the compact form `YYMMDDHHMMSS`.
pub fn format_compact(t: &Timestamp) -> (r: String)
    ensures
        r@ == fmt_compact(*t),
{
    let mut out = String::new();
    append_pad2(&mut out, (t.year % 100) as u8);
    append_pad2(&mut out, t.month);
    append_pad2(&mut out, t.day);
    append_pad2(&mut out, t.hour);
    append_pad2(&mut out, t.minute);
    append_pad2(&mut out, t.second);
    proof {
        assert(out@ =~= fmt_compact(*t));
    }
    out
}

/// Formats the date part of `t`, `YYYY-MM-DD`.
pub fn format_date(t: &Timestamp) -> (r: String)
    ensures
        r@ == fmt_date(*t),
{
    let mut out = String::new();
    append_date(&mut out, t);
    proof {
        assert(out@ =~= fmt_date(*t));
    }
    out
}

proof fn lemma_digit_roundtrip(d: int)
    requires
        0 <= d <= 9,
    ensures
        is_digit(digit_char(d)),
        digit_val(digit_char(d)) == d,
{
}

proof fn lemma_pad2_val(n: int)
    requires
        0 <= n <= 99,
    ensures
        is_digit(pad2(n)[0]),
        is_digit(pad2(n)[1]),
        digit_val(pad2(n)[0]) * 10 + digit_val(pad2(n)[1]) == n,
{
    lemma_digit_roundtrip(n / 10 % 10);
    lemma_digit_roundtrip(n % 10);
}

proof fn lemma_pad4_val(n: int)
    requires
        0 <= n <= 9999,
    ensures
        is_digit(pad4(n)[0]),
        is_digit(pad4(n)[1]),
        is_digit(pad4(n)[2]),
        is_digit(pad4(n)[3]),
        digit_val(pad4(n)[0]) * 1000 + digit_val(pad4(n)[1]) * 100 + digit_val(pad4(n)[2]) * 10
            + digit_val(pad4(n)[3]) == n,
{
    lemma_digit_roundtrip(n / 1000 % 10);
    lemma_digit_roundtrip(n / 100 % 10);
    lemma_digit_roundtrip(n / 10 % 10);
    lemma_digit_roundtrip(n % 10);
}

/// Parsing what formatting wrote restores the timestamp.
#[verifier::rlimit(50)]
pub proof fn lemma_parse_of_format(t: Timestamp)
    requires
        t.wf(),
    ensures
        parse_ts_spec(fmt_ts(t)) == Some(t),
{
    let s = fmt_ts(t);
    let y = t.year as int;
    let mo = t.month as int;
    let d = t.day as int;
    let h = t.hour as int;
    let mi = t.minute as int;
    let sec = t.second as int;
    assert(fmt_date(t).len() == 10);
    assert(s.len() == 19);
    assert(s[0] == pad4(y)[0] && s[1] == pad4(y)[1] && s[2] == pad4(y)[2] && s[3] == pad4(y)[3]);
    assert(s[4] == '-');
    assert(s[5] == pad2(mo)[0] && s[6] == pad2(mo)[1]);
    assert(s[7] == '-');
    assert(s[8] == pad2(d)[0] && s[9] == pad2(d)[1]);
    assert(s[10] == ' ');
    assert(s[11] == pad2(h)[0] && s[12] == pad2(h)[1]);
    assert(s[13] == ':');
    assert(s[14] == pad2(mi)[0] && s[15] == pad2(mi)[1]);
    assert(s[16] == ':');
    assert(s[17] == pad2(sec)[0] && s[18] == pad2(sec)[1]);
    lemma_pad4_val(y);
    lemma_pad2_val(mo);
    lemma_pad2_val(d);
    lemma_pad2_val(h);
    lemma_pad2_val(mi);
    lemma_pad2_val(sec);
    assert(ts_text_shape(s));
    assert(four_digit_val(s, 0) == y);
    assert(two_digit_val(s, 5) == mo);
    assert(two_digit_val(s, 8) == d);
    assert(two_digit_val(s, 11) == h);
    assert(two_digit_val(s, 14) == mi);
    assert(two_digit_val(s, 17) == sec);
    assert(ts_of_text(s) == t);
}

proof fn lemma_digit_char_of_val(c: char)
    requires
        is_digit(c),
    ensures
        digit_char(digit_val(c)) == c,
{
    vstd::utf8::char_u32_cast(c, c as u32);
    assert(digit_char(digit_val(c)) as u32 == c as u32);
    vstd::utf8::char_u32_cast(digit_char(digit_val(c)), digit_char(digit_val(c)) as u32);
}

/// Formatting what parsing read restores the text: the header format
/// has one spelling per timestamp.
#[verifier::rlimit(100)]
pub proof fn lemma_format_of_parse(s: Seq<char>)
    requires
        parse_ts_spec(s) is Some,
    ensures
        fmt_ts(parse_ts_spec(s)->Some_0) == s,
{
    let t = ts_of_text(s);
    assert(ts_text_shape(s));
    assert forall|i: int| 0 <= i < 19 && is_digit(#[trigger] s[i]) implies digit_char(
        digit_val(s[i]),
    ) == s[i] by {
        lemma_digit_char_of_val(s[i]);
    }
    let y = t.year as int;
    let mo = t.month as int;
    let d = t.day as int;
    let h = t.hour as int;
    let mi = t.minute as int;
    let sec = t.second as int;
    assert(y == digit_val(s[0]) * 1000 + digit_val(s[1]) * 100 + digit_val(s[2]) * 10 + digit_val(
        s[3],
    ));
    assert(y / 1000 % 10 == digit_val(s[0]) && y / 100 % 10 == digit_val(s[1]) && y / 10 % 10
        == digit_val(s[2]) && y % 10 == digit_val(s[3]));
    assert(mo / 10 % 10 == digit_val(s[5]) && mo % 10 == digit_val(s[6]));
    assert(d / 10 % 10 == digit_val(s[8]) && d % 10 == digit_val(s[9]));
    assert(h / 10 % 10 == digit_val(s[11]) && h % 10 == digit_val(s[12]));
    assert(mi / 10 % 10 == digit_val(s[14]) && mi % 10 == digit_val(s[15]));
    assert(sec / 10 % 10 == digit_val(s[17]) && sec % 10 == digit_val(s[18]));
    assert(fmt_ts(t) =~= s);
}

/// A formatted timestamp is one line: digits and punctuation only.
#[verifier::rlimit(50)]
pub proof fn lemma_fmt_ts_no_newline(t: Timestamp)
    requires
        t.wf(),
    ensures
        !fmt_ts(t).contains('\n'),
{
    lemma_parse_of_format(t);
    let s = fmt_ts(t);
    assert(ts_text_shape(s));
    if s.contains('\n') {
        let i = choose|i: int| 0 <= i < s.len() && s[i] == '\n';
        assert(false);
    }
}

/// Whether a query timestamp literal has one of the recognised
/// lengths: year, year-month, date, date-hour, date-hour-minute, or
/// the full second form.
pub open spec fn partial_len_ok(n: nat) -> bool {
    n == 4 || n == 7 || n == 10 || n == 13 || n == 16 || n == 19
}

/// A partial timestamp literal, zero-padded to the full form: the
/// missing fields become January, the 1st, midnight.
pub open spec fn expand_partial(s: Seq<char>) -> Seq<char> {
    if s.len() == 4 {
        s + "-01-01 00:00:00"@
    } else if s.len() == 7 {
        s + "-01 00:00:00"@
    } else if s.len() == 10 {
        s + " 00:00:00"@
    } else if s.len() == 13 {
        s + ":00:00"@
    } else if s.len() == 16 {
        s + ":00"@
    } else {
        s
    }
}

/// Parses a query timestamp literal: one of the recognised partial
/// lengths, zero-padded to the full form and parsed as such. Any
/// other length, and any padded text that is not a valid timestamp,
/// yields nothing.
pub fn parse_datetime(s: &str) -> (r: Option<Timestamp>)
    ensures
        r == if partial_len_ok(s@.len()) {
            parse_ts_spec(expand_partial(s@))
        } else {
            None::<Timestamp>
        },
{
    let n = s.unicode_len();
    if !(n == 4 || n == 7 || n == 10 || n == 13 || n == 16 || n == 19) {
        return None;
    }
    let mut full = String::from_str(s);
    if n == 4 {
        full.append("-01-01 00:00:00");
    } else if n == 7 {
        full.append("-01 00:00:00");
    } else if n == 10 {
        full.append(" 00:00:00");
    } else if n == 13 {
        full.append(":00:00");
    } else if n == 16 {
        full.append(":00");
    }
    assert(full@ == expand_partial(s@));
    parse_ts(full.as_str())
}

} // verus!
