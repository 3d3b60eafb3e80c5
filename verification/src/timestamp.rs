//! UTC timestamps as plain civil fields, with their RFC 3339 text form.
//!
//! Timestamps travel through the daemon untouched: the index stores them
//! in RFC 3339 and orders entries by them. Holding the civil fields
//! directly keeps both the text form and the ordering fully in view.

use vstd::prelude::*;
use crate::text::{digit_char, digit_val, is_digit, make_digit, read_digit, push_char};

verus! {

/// One instant of UTC time, as civil calendar fields.
#[derive(Clone, Copy, Debug, PartialEq, Eq, Structural, Hash)]
pub struct Timestamp {
    pub year: u16,
    pub month: u8,
    pub day: u8,
    pub hour: u8,
    pub minute: u8,
    pub second: u8,
    pub nanos: u32,
}

pub open spec fn spec_is_leap_year(y: int) -> bool {
    y % 4 == 0 && (y % 100 != 0 || y % 400 == 0)
}

pub open spec fn spec_days_in_month(y: int, m: int) -> int {
    if m == 2 {
        if spec_is_leap_year(y) {
            29
        } else {
            28
        }
    } else if m == 4 || m == 6 || m == 9 || m == 11 {
        30
    } else {
        31
    }
}

pub fn days_in_month(year: u16, month: u8) -> (r: u8)
    ensures
        r as int == spec_days_in_month(year as int, month as int),
{
    if month == 2 {
        if year % 4 == 0 && (year % 100 != 0 || year % 400 == 0) {
            29
        } else {
            28
        }
    } else if month == 4 || month == 6 || month == 9 || month == 11 {
        30
    } else {
        31
    }
}

impl Timestamp {
    /// A real calendar instant that the four-digit-year text form covers.
    pub open spec fn valid(self) -> bool {
        &&& self.year <= 9999
        &&& 1 <= self.month <= 12
        &&& 1 <= self.day <= spec_days_in_month(self.year as int, self.month as int)
        &&& self.hour <= 23
        &&& self.minute <= 59
        &&& self.second <= 59
        &&& self.nanos < 1000000000
    }

    pub fn is_valid(&self) -> (r: bool)
        ensures
            r == self.valid(),
    {
        self.year <= 9999 && 1 <= self.month && self.month <= 12 && 1 <= self.day && self.day
            <= days_in_month(self.year, self.month) && self.hour <= 23 && self.minute <= 59
            && self.second <= 59 && self.nanos < 1000000000
    }

    /// Chronological order: lexicographic on the civil fields.
    pub open spec fn spec_le(self, other: Timestamp) -> bool {
        if self.year != other.year {
            self.year < other.year
        } else if self.month != other.month {
            self.month < other.month
        } else if self.day != other.day {
            self.day < other.day
        } else if self.hour != other.hour {
            self.hour < other.hour
        } else if self.minute != other.minute {
            self.minute < other.minute
        } else if self.second != other.second {
            self.second < other.second
        } else {
            self.nanos <= other.nanos
        }
    }

    pub fn le(&self, other: &Timestamp) -> (r: bool)
        ensures
            r == self.spec_le(*other),
    {
        if self.year != other.year {
            self.year < other.year
        } else if self.month != other.month {
            self.month < other.month
        } else if self.day != other.day {
            self.day < other.day
        } else if self.hour != other.hour {
            self.hour < other.hour
        } else if self.minute != other.minute {
            self.minute < other.minute
        } else if self.second != other.second {
            self.second < other.second
        } else {
            self.nanos <= other.nanos
        }
    }
}

pub open spec fn pad2(n: int) -> Seq<char> {
    seq![digit_char(n / 10), digit_char(n % 10)]
}

pub open spec fn pad4(n: int) -> Seq<char> {
    seq![
        digit_char(n / 1000),
        digit_char((n / 100) % 10),
        digit_char((n / 10) % 10),
        digit_char(n % 10),
    ]
}

pub open spec fn pad9(n: int) -> Seq<char> {
    seq![
        digit_char(n / 100000000),
        digit_char((n / 10000000) % 10),
        digit_char((n / 1000000) % 10),
        digit_char((n / 100000) % 10),
        digit_char((n / 10000) % 10),
        digit_char((n / 1000) % 10),
        digit_char((n / 100) % 10),
        digit_char((n / 10) % 10),
        digit_char(n % 10),
    ]
}

/// The RFC 3339 UTC text form this crate writes: second precision, and a
/// nine-digit fraction exactly when the instant has a nonzero nanosecond
/// part.
pub open spec fn spec_rfc3339(t: Timestamp) -> Seq<char> {
    pad4(t.year as int) + seq!['-'] + pad2(t.month as int) + seq!['-'] + pad2(t.day as int)
        + seq!['T'] + pad2(t.hour as int) + seq![':'] + pad2(t.minute as int) + seq![':'] + pad2(
        t.second as int,
    ) + (if t.nanos == 0 {
        Seq::<char>::empty()
    } else {
        seq!['.'] + pad9(t.nanos as int)
    }) + seq!['Z']
}

pub open spec fn spec_val2(s: Seq<char>, i: int) -> int {
    10 * digit_val(s[i]) + digit_val(s[i + 1])
}

pub open spec fn spec_val4(s: Seq<char>, i: int) -> int {
    1000 * digit_val(s[i]) + 100 * digit_val(s[i + 1]) + 10 * digit_val(s[i + 2]) + digit_val(
        s[i + 3],
    )
}

pub open spec fn spec_val9(s: Seq<char>, i: int) -> int {
    100000000 * digit_val(s[i]) + 10000000 * digit_val(s[i + 1]) + 1000000 * digit_val(s[i + 2])
        + 100000 * digit_val(s[i + 3]) + 10000 * digit_val(s[i + 4]) + 1000 * digit_val(s[i + 5])
        + 100 * digit_val(s[i + 6]) + 10 * digit_val(s[i + 7]) + digit_val(s[i + 8])
}

pub open spec fn digits_at(s: Seq<char>, from: int, to: int) -> bool {
    forall|i: int| from <= i < to ==> is_digit(#[trigger] s[i])
}

/// Parses the text form this crate writes; a fraction, when present, has
/// exactly nine digits.
pub open spec fn spec_parse_rfc3339(s: Seq<char>) -> Option<Timestamp> {
    if s.len() != 20 && s.len() != 30 {
        None
    } else if !(s[4] == '-' && s[7] == '-' && s[10] == 'T' && s[13] == ':' && s[16] == ':'
        && s[s.len() - 1] == 'Z' && digits_at(s, 0, 4) && digits_at(s, 5, 7) && digits_at(s, 8, 10)
        && digits_at(s, 11, 13) && digits_at(s, 14, 16) && digits_at(s, 17, 19) && (s.len() == 30
        ==> s[19] == '.' && digits_at(s, 20, 29))) {
        None
    } else {
        let t = Timestamp {
            year: spec_val4(s, 0) as u16,
            month: spec_val2(s, 5) as u8,
            day: spec_val2(s, 8) as u8,
            hour: spec_val2(s, 11) as u8,
            minute: spec_val2(s, 14) as u8,
            second: spec_val2(s, 17) as u8,
            nanos: if s.len() == 30 {
                spec_val9(s, 20) as u32
            } else {
                0
            },
        };
        if t.valid() && (s.len() == 30 ==> t.nanos != 0) {
            Some(t)
        } else {
            None
        }
    }
}

fn push_pad2(s: &mut String, n: u8)
    requires
        n < 100,
    ensures
        final(s)@ == old(s)@ + pad2(n as int),
{
    push_char(s, make_digit(n / 10));
    push_char(s, make_digit(n % 10));
    proof {
        assert(s@ =~= old(s)@ + pad2(n as int));
    }
}

fn push_pad4(s: &mut String, n: u16)
    requires
        n < 10000,
    ensures
        final(s)@ == old(s)@ + pad4(n as int),
{
    push_char(s, make_digit((n / 1000) as u8));
    push_char(s, make_digit(((n / 100) % 10) as u8));
    push_char(s, make_digit(((n / 10) % 10) as u8));
    push_char(s, make_digit((n % 10) as u8));
    proof {
        assert(s@ =~= old(s)@ + pad4(n as int));
    }
}

fn push_pad9(s: &mut String, n: u32)
    requires
        n < 1000000000,
    ensures
        final(s)@ == old(s)@ + pad9(n as int),
{
    push_char(s, make_digit((n / 100000000) as u8));
    push_char(s, make_digit(((n / 10000000) % 10) as u8));
    push_char(s, make_digit(((n / 1000000) % 10) as u8));
    push_char(s, make_digit(((n / 100000) % 10) as u8));
    push_char(s, make_digit(((n / 10000) % 10) as u8));
    push_char(s, make_digit(((n / 1000) % 10) as u8));
    push_char(s, make_digit(((n / 100) % 10) as u8));
    push_char(s, make_digit(((n / 10) % 10) as u8));
    push_char(s, make_digit((n % 10) as u8));
    proof {
        assert(s@ =~= old(s)@ + pad9(n as int));
    }
}

impl Timestamp {
    /// The RFC 3339 text form, appended to `s`.
    pub fn push_rfc3339(&self, s: &mut String)
        requires
            self.valid(),
        ensures
            final(s)@ == old(s)@ + spec_rfc3339(*self),
    {
        push_pad4(s, self.year);
        push_char(s, '-');
        push_pad2(s, self.month);
        push_char(s, '-');
        push_pad2(s, self.day);
        push_char(s, 'T');
        push_pad2(s, self.hour);
        push_char(s, ':');
        push_pad2(s, self.minute);
        push_char(s, ':');
        push_pad2(s, self.second);
        if self.nanos != 0 {
            push_char(s, '.');
            push_pad9(s, self.nanos);
        }
        push_char(s, 'Z');
        proof {
            assert(s@ =~= old(s)@ + spec_rfc3339(*self));
        }
    }

    /// The RFC 3339 text form.
    pub fn to_rfc3339(&self) -> (r: String)
        requires
            self.valid(),
        ensures
            r@ == spec_rfc3339(*self),
    {
        let mut s = String::new();
        self.push_rfc3339(&mut s);
        proof {
            assert(s@ =~= spec_rfc3339(*self));
        }
        s
    }

    /// Parses the RFC 3339 text form this crate writes.
    pub fn parse_rfc3339(s: &str) -> (r: Option<Timestamp>)
        ensures
            r == spec_parse_rfc3339(s@),
    {
        let n = s.unicode_len();
        if n != 20 && n != 30 {
            return None;
        }
        if !(s.get_char(4) == '-' && s.get_char(7) == '-' && s.get_char(10) == 'T' && s.get_char(13)
            == ':' && s.get_char(16) == ':' && s.get_char(n - 1) == 'Z') {
            return None;
        }
        let year = match read_val4(s, 0) {
            Some(v) => v,
            None => {
                return None;
            },
        };
        let month = match read_val2(s, 5) {
            Some(v) => v,
            None => {
                return None;
            },
        };
        let day = match read_val2(s, 8) {
            Some(v) => v,
            None => {
                return None;
            },
        };
        let hour = match read_val2(s, 11) {
            Some(v) => v,
            None => {
                return None;
            },
        };
        let minute = match read_val2(s, 14) {
            Some(v) => v,
            None => {
                return None;
            },
        };
        let second = match read_val2(s, 17) {
            Some(v) => v,
            None => {
                return None;
            },
        };
        let nanos: u32 = if n == 30 {
            if s.get_char(19) != '.' {
                return None;
            }
            match read_val9(s, 20) {
                Some(v) => v,
                None => {
                    return None;
                },
            }
        } else {
            0
        };
        let t = Timestamp { year, month, day, hour, minute, second, nanos };
        if t.is_valid() && (n != 30 || t.nanos != 0) {
            Some(t)
        } else {
            None
        }
    }
}

/// Reads two decimal digits of `s` starting at `i`.
fn read_val2(s: &str, i: usize) -> (r: Option<u8>)
    requires
        i + 2 <= s@.len() <= usize::MAX,
    ensures
        r is Some <==> digits_at(s@, i as int, i + 2),
        r matches Some(v) ==> v as int == spec_val2(s@, i as int) && v < 100,
{
    let d0 = read_digit(s.get_char(i));
    let d1 = read_digit(s.get_char(i + 1));
    match (d0, d1) {
        (Some(a), Some(b)) => {
            assert(forall|j: int| i <= j < i + 2 ==> is_digit(s@[j])) by {
                assert(is_digit(s@[i as int]));
                assert(is_digit(s@[i as int + 1]));
            }
            Some(10 * a + b)
        },
        _ => None,
    }
}

/// Reads four decimal digits of `s` starting at `i`.
fn read_val4(s: &str, i: usize) -> (r: Option<u16>)
    requires
        i + 4 <= s@.len() <= usize::MAX,
    ensures
        r is Some <==> digits_at(s@, i as int, i + 4),
        r matches Some(v) ==> v as int == spec_val4(s@, i as int) && v < 10000,
{
    let d0 = read_digit(s.get_char(i));
    let d1 = read_digit(s.get_char(i + 1));
    let d2 = read_digit(s.get_char(i + 2));
    let d3 = read_digit(s.get_char(i + 3));
    match (d0, d1, d2, d3) {
        (Some(a), Some(b), Some(c), Some(d)) => {
            assert(forall|j: int| i <= j < i + 4 ==> is_digit(s@[j])) by {
                assert(is_digit(s@[i as int]));
                assert(is_digit(s@[i as int + 1]));
                assert(is_digit(s@[i as int + 2]));
                assert(is_digit(s@[i as int + 3]));
            }
            Some(1000 * (a as u16) + 100 * (b as u16) + 10 * (c as u16) + (d as u16))
        },
        _ => None,
    }
}

/// Reads nine decimal digits of `s` starting at `i`.
fn read_val9(s: &str, i: usize) -> (r: Option<u32>)
    requires
        i + 9 <= s@.len() <= usize::MAX,
    ensures
        r is Some <==> digits_at(s@, i as int, i + 9),
        r matches Some(v) ==> v as int == spec_val9(s@, i as int) && v < 1000000000,
{
    let d0 = read_digit(s.get_char(i));
    let d1 = read_digit(s.get_char(i + 1));
    let d2 = read_digit(s.get_char(i + 2));
    let d3 = read_digit(s.get_char(i + 3));
    let d4 = read_digit(s.get_char(i + 4));
    let d5 = read_digit(s.get_char(i + 5));
    let d6 = read_digit(s.get_char(i + 6));
    let d7 = read_digit(s.get_char(i + 7));
    let d8 = read_digit(s.get_char(i + 8));
    match (d0, d1, d2, d3, d4, d5, d6, d7, d8) {
        (
            Some(a),
            Some(b),
            Some(c),
            Some(d),
            Some(e),
            Some(f),
            Some(g),
            Some(h),
            Some(k),
        ) => {
            assert(forall|j: int| i <= j < i + 9 ==> is_digit(s@[j])) by {
                assert(is_digit(s@[i as int]));
                assert(is_digit(s@[i as int + 1]));
                assert(is_digit(s@[i as int + 2]));
                assert(is_digit(s@[i as int + 3]));
                assert(is_digit(s@[i as int + 4]));
                assert(is_digit(s@[i as int + 5]));
                assert(is_digit(s@[i as int + 6]));
                assert(is_digit(s@[i as int + 7]));
                assert(is_digit(s@[i as int + 8]));
            }
            Some(
                100000000 * (a as u32) + 10000000 * (b as u32) + 1000000 * (c as u32) + 100000 * (d
                    as u32) + 10000 * (e as u32) + 1000 * (f as u32) + 100 * (g as u32) + 10 * (h
                    as u32) + (k as u32),
            )
        },
        _ => None,
    }
}

/// The two characters of `pad2` are digits and read back as the value.
proof fn lemma_pad2_props(n: int)
    requires
        0 <= n < 100,
    ensures
        digits_at(pad2(n), 0, 2),
        spec_val2(pad2(n), 0) == n,
{
    crate::text::lemma_digit_char_val(n / 10);
    crate::text::lemma_digit_char_val(n % 10);
    assert forall|i: int| 0 <= i < 2 implies is_digit(#[trigger] pad2(n)[i]) by {
        if i == 0 {
            assert(pad2(n)[0] == digit_char(n / 10));
        } else {
            assert(pad2(n)[1] == digit_char(n % 10));
        }
    }
}

proof fn lemma_pad4_props(n: int)
    requires
        0 <= n < 10000,
    ensures
        digits_at(pad4(n), 0, 4),
        spec_val4(pad4(n), 0) == n,
{
    crate::text::lemma_digit_char_val(n / 1000);
    crate::text::lemma_digit_char_val((n / 100) % 10);
    crate::text::lemma_digit_char_val((n / 10) % 10);
    crate::text::lemma_digit_char_val(n % 10);
    assert forall|i: int| 0 <= i < 4 implies is_digit(#[trigger] pad4(n)[i]) by {
        if i == 0 {
            assert(pad4(n)[0] == digit_char(n / 1000));
        } else if i == 1 {
            assert(pad4(n)[1] == digit_char((n / 100) % 10));
        } else if i == 2 {
            assert(pad4(n)[2] == digit_char((n / 10) % 10));
        } else {
            assert(pad4(n)[3] == digit_char(n % 10));
        }
    }
    vstd::arithmetic::div_mod::lemma_div_denominator(n, 10, 10);
    vstd::arithmetic::div_mod::lemma_div_denominator(n, 100, 10);
    assert(n == 10 * (n / 10) + n % 10);
    assert(n / 10 == 10 * (n / 100) + (n / 10) % 10);
    assert(n / 100 == 10 * (n / 1000) + (n / 100) % 10);
    assert(spec_val4(pad4(n), 0) == n);
}

proof fn lemma_pad9_props(n: int)
    requires
        0 <= n < 1000000000,
    ensures
        digits_at(pad9(n), 0, 9),
        spec_val9(pad9(n), 0) == n,
{
    crate::text::lemma_digit_char_val(n / 100000000);
    crate::text::lemma_digit_char_val((n / 10000000) % 10);
    crate::text::lemma_digit_char_val((n / 1000000) % 10);
    crate::text::lemma_digit_char_val((n / 100000) % 10);
    crate::text::lemma_digit_char_val((n / 10000) % 10);
    crate::text::lemma_digit_char_val((n / 1000) % 10);
    crate::text::lemma_digit_char_val((n / 100) % 10);
    crate::text::lemma_digit_char_val((n / 10) % 10);
    crate::text::lemma_digit_char_val(n % 10);
    assert forall|i: int| 0 <= i < 9 implies is_digit(#[trigger] pad9(n)[i]) by {
        if i == 0 {
            assert(pad9(n)[0] == digit_char(n / 100000000));
        } else if i == 1 {
            assert(pad9(n)[1] == digit_char((n / 10000000) % 10));
        } else if i == 2 {
            assert(pad9(n)[2] == digit_char((n / 1000000) % 10));
        } else if i == 3 {
            assert(pad9(n)[3] == digit_char((n / 100000) % 10));
        } else if i == 4 {
            assert(pad9(n)[4] == digit_char((n / 10000) % 10));
        } else if i == 5 {
            assert(pad9(n)[5] == digit_char((n / 1000) % 10));
        } else if i == 6 {
            assert(pad9(n)[6] == digit_char((n / 100) % 10));
        } else if i == 7 {
            assert(pad9(n)[7] == digit_char((n / 10) % 10));
        } else {
            assert(pad9(n)[8] == digit_char(n % 10));
        }
    }
    vstd::arithmetic::div_mod::lemma_div_denominator(n, 10, 10);
    vstd::arithmetic::div_mod::lemma_div_denominator(n, 100, 10);
    vstd::arithmetic::div_mod::lemma_div_denominator(n, 1000, 10);
    vstd::arithmetic::div_mod::lemma_div_denominator(n, 10000, 10);
    vstd::arithmetic::div_mod::lemma_div_denominator(n, 100000, 10);
    vstd::arithmetic::div_mod::lemma_div_denominator(n, 1000000, 10);
    vstd::arithmetic::div_mod::lemma_div_denominator(n, 10000000, 10);
    assert(n == 10 * (n / 10) + n % 10);
    assert(n / 10 == 10 * (n / 100) + (n / 10) % 10);
    assert(n / 100 == 10 * (n / 1000) + (n / 100) % 10);
    assert(n / 1000 == 10 * (n / 10000) + (n / 1000) % 10);
    assert(n / 10000 == 10 * (n / 100000) + (n / 10000) % 10);
    assert(n / 100000 == 10 * (n / 1000000) + (n / 100000) % 10);
    assert(n / 1000000 == 10 * (n / 10000000) + (n / 1000000) % 10);
    assert(n / 10000000 == 10 * (n / 100000000) + (n / 10000000) % 10);
    assert(spec_val9(pad9(n), 0) == n);
}

/// The text form of a valid timestamp parses back to the same instant.
#[verifier::rlimit(50)]
pub proof fn lemma_rfc3339_round_trip(t: Timestamp)
    requires
        t.valid(),
    ensures
        spec_parse_rfc3339(spec_rfc3339(t)) == Some(t),
{
    let s = spec_rfc3339(t);
    let py = pad4(t.year as int);
    let pmo = pad2(t.month as int);
    let pd = pad2(t.day as int);
    let ph = pad2(t.hour as int);
    let pmi = pad2(t.minute as int);
    let psec = pad2(t.second as int);
    lemma_pad4_props(t.year as int);
    lemma_pad2_props(t.month as int);
    lemma_pad2_props(t.day as int);
    lemma_pad2_props(t.hour as int);
    lemma_pad2_props(t.minute as int);
    lemma_pad2_props(t.second as int);
    if t.nanos == 0 {
        assert(s.len() == 20);
    } else {
        assert(s.len() == 30);
    }
    assert(s[4] == '-' && s[7] == '-' && s[10] == 'T' && s[13] == ':' && s[16] == ':');
    assert(s[s.len() - 1] == 'Z');
    assert(digits_at(s, 0, 4) && spec_val4(s, 0) == t.year as int) by {
        assert(s[0] == py[0] && s[1] == py[1] && s[2] == py[2] && s[3] == py[3]);
        assert forall|i: int| 0 <= i < 4 implies is_digit(#[trigger] s[i]) by {
            assert(s[i] == py[i]);
        }
    }
    assert(digits_at(s, 5, 7) && spec_val2(s, 5) == t.month as int) by {
        assert(s[5] == pmo[0] && s[6] == pmo[1]);
        assert forall|i: int| 5 <= i < 7 implies is_digit(#[trigger] s[i]) by {
            assert(s[i] == pmo[i - 5]);
        }
    }
    assert(digits_at(s, 8, 10) && spec_val2(s, 8) == t.day as int) by {
        assert(s[8] == pd[0] && s[9] == pd[1]);
        assert forall|i: int| 8 <= i < 10 implies is_digit(#[trigger] s[i]) by {
            assert(s[i] == pd[i - 8]);
        }
    }
    assert(digits_at(s, 11, 13) && spec_val2(s, 11) == t.hour as int) by {
        assert(s[11] == ph[0] && s[12] == ph[1]);
        assert forall|i: int| 11 <= i < 13 implies is_digit(#[trigger] s[i]) by {
            assert(s[i] == ph[i - 11]);
        }
    }
    assert(digits_at(s, 14, 16) && spec_val2(s, 14) == t.minute as int) by {
        assert(s[14] == pmi[0] && s[15] == pmi[1]);
        assert forall|i: int| 14 <= i < 16 implies is_digit(#[trigger] s[i]) by {
            assert(s[i] == pmi[i - 14]);
        }
    }
    assert(digits_at(s, 17, 19) && spec_val2(s, 17) == t.second as int) by {
        assert(s[17] == psec[0] && s[18] == psec[1]);
        assert forall|i: int| 17 <= i < 19 implies is_digit(#[trigger] s[i]) by {
            assert(s[i] == psec[i - 17]);
        }
    }
    if t.nanos != 0 {
        let pn = pad9(t.nanos as int);
        lemma_pad9_props(t.nanos as int);
        assert(s[19] == '.');
        assert(digits_at(s, 20, 29) && spec_val9(s, 20) == t.nanos as int) by {
            assert(s[20] == pn[0] && s[21] == pn[1] && s[22] == pn[2] && s[23] == pn[3] && s[24]
                == pn[4] && s[25] == pn[5] && s[26] == pn[6] && s[27] == pn[7] && s[28] == pn[8]);
            assert forall|i: int| 20 <= i < 29 implies is_digit(#[trigger] s[i]) by {
                assert(s[i] == pn[i - 20]);
            }
        }
    }
}

} // verus!
