//! Small text helpers shared by the formats this crate defines: building
//! strings character by character, digits and hexadecimal, and the
//! whitespace classification used when commands are trimmed.

use vstd::prelude::*;

verus! {

/// Relies on std's String::push: appends the given character to the string.
#[verifier::external_body]
pub fn push_char(s: &mut String, c: char)
    ensures
        final(s)@ == old(s)@ + seq![c],
{
    s.push(c);
}

/// Relies on std's String::from_utf8: returns the string holding exactly
/// the given bytes when they are valid UTF-8, and an error otherwise.
#[verifier::external_body]
pub fn string_from_utf8(v: Vec<u8>) -> (r: Option<String>)
    ensures
        vstd::utf8::valid_utf8(v@) <==> r is Some,
        r matches Some(s) ==> vstd::utf8::encode_utf8(s@) == v@,
{
    match String::from_utf8(v) {
        Ok(s) => Some(s),
        Err(_) => None,
    }
}

pub open spec fn digit_char(n: int) -> char
    recommends
        0 <= n < 10,
{
    if n == 0 {
        '0'
    } else if n == 1 {
        '1'
    } else if n == 2 {
        '2'
    } else if n == 3 {
        '3'
    } else if n == 4 {
        '4'
    } else if n == 5 {
        '5'
    } else if n == 6 {
        '6'
    } else if n == 7 {
        '7'
    } else if n == 8 {
        '8'
    } else {
        '9'
    }
}

pub open spec fn digit_val(c: char) -> int {
    if c == '0' {
        0
    } else if c == '1' {
        1
    } else if c == '2' {
        2
    } else if c == '3' {
        3
    } else if c == '4' {
        4
    } else if c == '5' {
        5
    } else if c == '6' {
        6
    } else if c == '7' {
        7
    } else if c == '8' {
        8
    } else if c == '9' {
        9
    } else {
        -1
    }
}

pub open spec fn is_digit(c: char) -> bool {
    digit_val(c) >= 0
}

pub proof fn lemma_digit_char_val(n: int)
    requires
        0 <= n < 10,
    ensures
        is_digit(digit_char(n)),
        digit_val(digit_char(n)) == n,
{
}

/// Executable digit character, matching `digit_char`.
pub fn make_digit(n: u8) -> (c: char)
    requires
        n < 10,
    ensures
        c == digit_char(n as int),
{
    match n {
        0 => '0',
        1 => '1',
        2 => '2',
        3 => '3',
        4 => '4',
        5 => '5',
        6 => '6',
        7 => '7',
        8 => '8',
        _ => '9',
    }
}

/// Executable digit test and value, matching `is_digit` / `digit_val`.
pub fn read_digit(c: char) -> (r: Option<u8>)
    ensures
        r is Some <==> is_digit(c),
        r matches Some(n) ==> n < 10 && n as int == digit_val(c),
{
    match c {
        '0' => Some(0),
        '1' => Some(1),
        '2' => Some(2),
        '3' => Some(3),
        '4' => Some(4),
        '5' => Some(5),
        '6' => Some(6),
        '7' => Some(7),
        '8' => Some(8),
        '9' => Some(9),
        _ => None,
    }
}

pub open spec fn hex_char(n: int) -> char
    recommends
        0 <= n < 16,
{
    if n < 10 {
        digit_char(n)
    } else if n == 10 {
        'a'
    } else if n == 11 {
        'b'
    } else if n == 12 {
        'c'
    } else if n == 13 {
        'd'
    } else if n == 14 {
        'e'
    } else {
        'f'
    }
}

/// Value of a hexadecimal digit character; accepts both cases.
pub open spec fn hex_val(c: char) -> int {
    if is_digit(c) {
        digit_val(c)
    } else if c == 'a' || c == 'A' {
        10
    } else if c == 'b' || c == 'B' {
        11
    } else if c == 'c' || c == 'C' {
        12
    } else if c == 'd' || c == 'D' {
        13
    } else if c == 'e' || c == 'E' {
        14
    } else if c == 'f' || c == 'F' {
        15
    } else {
        -1
    }
}

pub open spec fn is_hex(c: char) -> bool {
    hex_val(c) >= 0
}

pub proof fn lemma_hex_char_val(n: int)
    requires
        0 <= n < 16,
    ensures
        is_hex(hex_char(n)),
        hex_val(hex_char(n)) == n,
{
}

/// Executable hexadecimal digit character, matching `hex_char`.
pub fn make_hex(n: u8) -> (c: char)
    requires
        n < 16,
    ensures
        c == hex_char(n as int),
{
    if n < 10 {
        make_digit(n)
    } else {
        match n {
            10 => 'a',
            11 => 'b',
            12 => 'c',
            13 => 'd',
            14 => 'e',
            _ => 'f',
        }
    }
}

/// Executable hexadecimal digit test and value, matching `is_hex` / `hex_val`.
pub fn read_hex(c: char) -> (r: Option<u8>)
    ensures
        r is Some <==> is_hex(c),
        r matches Some(n) ==> n < 16 && n as int == hex_val(c),
{
    if let Some(d) = read_digit(c) {
        Some(d)
    } else {
        match c {
            'a' | 'A' => Some(10),
            'b' | 'B' => Some(11),
            'c' | 'C' => Some(12),
            'd' | 'D' => Some(13),
            'e' | 'E' => Some(14),
            'f' | 'F' => Some(15),
            _ => None,
        }
    }
}

/// The characters with the Unicode White_Space property: what trimming
/// a command's trailing whitespace removes.
pub open spec fn is_space(c: char) -> bool {
    c == ' ' || c == '\t' || c == '\n' || c == '\r' || c == '\u{b}' || c == '\u{c}' || c
        == '\u{85}' || c == '\u{a0}' || c == '\u{1680}' || c == '\u{2000}' || c == '\u{2001}' || c
        == '\u{2002}' || c == '\u{2003}' || c == '\u{2004}' || c == '\u{2005}' || c == '\u{2006}'
        || c == '\u{2007}' || c == '\u{2008}' || c == '\u{2009}' || c == '\u{200a}' || c
        == '\u{2028}' || c == '\u{2029}' || c == '\u{202f}' || c == '\u{205f}' || c == '\u{3000}'
}

/// Executable whitespace test, matching `is_space`.
pub fn space_char(c: char) -> (r: bool)
    ensures
        r == is_space(c),
{
    match c {
        ' ' | '\t' | '\n' | '\r' | '\u{b}' | '\u{c}' | '\u{85}' | '\u{a0}' | '\u{1680}'
            | '\u{2000}' | '\u{2001}' | '\u{2002}' | '\u{2003}' | '\u{2004}' | '\u{2005}'
            | '\u{2006}' | '\u{2007}' | '\u{2008}' | '\u{2009}' | '\u{200a}' | '\u{2028}'
            | '\u{2029}' | '\u{202f}' | '\u{205f}' | '\u{3000}' => true,
        _ => false,
    }
}

/// Decimal digits of a number, most significant first, no leading zeros.
pub open spec fn spec_dec(n: int) -> Seq<char>
    decreases n,
{
    if n < 10 {
        seq![digit_char(n)]
    } else {
        spec_dec(n / 10).push(digit_char(n % 10))
    }
}

/// Value of decimal digits, most significant first.
pub open spec fn dec_val(t: Seq<char>) -> int
    decreases t.len(),
{
    if t.len() == 0 {
        0
    } else {
        10 * dec_val(t.drop_last()) + digit_val(t.last())
    }
}

pub open spec fn all_digits(t: Seq<char>) -> bool {
    forall|i: int| 0 <= i < t.len() ==> is_digit(#[trigger] t[i])
}

/// The canonical decimal form a number is written in: digits only, no
/// leading zero unless the number is zero.
pub open spec fn spec_parse_u16(t: Seq<char>) -> Option<u16> {
    if t.len() > 0 && all_digits(t) && (t[0] == '0' ==> t.len() == 1) && dec_val(t) < 65536 {
        Some(dec_val(t) as u16)
    } else {
        None
    }
}

/// Appends the decimal form of `n`.
pub fn push_dec(s: &mut String, n: u16)
    ensures
        final(s)@ == old(s)@ + spec_dec(n as int),
    decreases n,
{
    if n < 10 {
        push_char(s, make_digit(n as u8));
        proof {
            assert(s@ =~= old(s)@ + spec_dec(n as int));
        }
    } else {
        assert(n / 10 < n);
        push_dec(s, n / 10);
        push_char(s, make_digit((n % 10) as u8));
        proof {
            assert(s@ =~= old(s)@ + spec_dec(n as int));
        }
    }
}

pub proof fn lemma_spec_dec_digits(n: int)
    requires
        0 <= n,
    ensures
        all_digits(spec_dec(n)),
        spec_dec(n).len() >= 1,
        dec_val(spec_dec(n)) == n,
        n > 0 ==> spec_dec(n)[0] != '0',
        n == 0 ==> spec_dec(n) == seq!['0'],
    decreases n,
{
    if n < 10 {
        let t = spec_dec(n);
        lemma_digit_char_val(n);
        assert(t =~= seq![digit_char(n)]);
        assert forall|i: int| 0 <= i < t.len() implies is_digit(#[trigger] t[i]) by {
            assert(t[i] == digit_char(n));
        }
        assert(t.drop_last() =~= Seq::<char>::empty());
        assert(dec_val(t) == 10 * dec_val(Seq::<char>::empty()) + digit_val(t.last()));
    } else {
        lemma_spec_dec_digits(n / 10);
        lemma_digit_char_val(n % 10);
        let p = spec_dec(n / 10);
        let t = spec_dec(n);
        assert(t == p.push(digit_char(n % 10)));
        assert forall|i: int| 0 <= i < t.len() implies is_digit(#[trigger] t[i]) by {
            if i < t.len() - 1 {
                assert(t[i] == p[i]);
                assert(is_digit(p[i]));
            } else {
                assert(t[i] == digit_char(n % 10));
            }
        }
        assert(t.drop_last() =~= p);
        assert(t.last() == digit_char(n % 10));
        assert(dec_val(t) == 10 * (n / 10) + n % 10);
        assert(t[0] == p[0]);
        assert(n / 10 > 0);
    }
}

/// The decimal form of a result code parses back to the same value.
pub proof fn lemma_dec_round_trip(n: u16)
    ensures
        spec_parse_u16(spec_dec(n as int)) == Some(n),
{
    lemma_spec_dec_digits(n as int);
    if n == 0 {
        assert(spec_dec(0)[0] == '0' && spec_dec(0).len() == 1);
    }
}

spec fn ten_pow(k: int) -> int
    decreases k,
{
    if k <= 0 {
        1
    } else {
        10 * ten_pow(k - 1)
    }
}

proof fn lemma_ten_pow_positive(k: int)
    ensures
        ten_pow(k) >= 1,
    decreases k,
{
    if k > 0 {
        lemma_ten_pow_positive(k - 1);
    }
}

proof fn lemma_ten_pow_grows(a: int, b: int)
    requires
        0 <= a <= b,
    ensures
        ten_pow(a) <= ten_pow(b),
    decreases b,
{
    if a < b {
        lemma_ten_pow_grows(a, b - 1);
        lemma_ten_pow_positive(b - 1);
    }
}

proof fn lemma_dec_val_positive(t: Seq<char>)
    requires
        all_digits(t),
        t.len() >= 1,
        t[0] != '0',
    ensures
        dec_val(t) >= ten_pow(t.len() - 1),
    decreases t.len(),
{
    assert(is_digit(t[t.len() - 1]));
    assert(t.last() == t[t.len() - 1]);
    if t.len() == 1 {
        assert(dec_val(t.drop_last()) == 0);
        assert(t.last() == t[0]);
        assert(digit_val(t[0]) >= 1);
        assert(dec_val(t) == digit_val(t[0]));
    } else {
        let p = t.drop_last();
        assert(p[0] == t[0]);
        assert forall|i: int| 0 <= i < p.len() implies is_digit(#[trigger] p[i]) by {
            assert(p[i] == t[i]);
            assert(is_digit(t[i]));
        }
        lemma_dec_val_positive(p);
        assert(digit_val(t.last()) >= 0);
        assert(ten_pow(t.len() - 1) == 10 * ten_pow(t.len() - 2));
        assert(dec_val(t) == 10 * dec_val(p) + digit_val(t.last()));
        assert(dec_val(p) >= ten_pow(p.len() - 1));
        assert(p.len() - 1 == t.len() - 2);
        assert(10 * dec_val(p) >= 10 * ten_pow(t.len() - 2));
    }
}

proof fn lemma_dec_val_upper(t: Seq<char>)
    requires
        all_digits(t),
    ensures
        0 <= dec_val(t) <= ten_pow(t.len() as int) - 1,
    decreases t.len(),
{
    if t.len() == 0 {
    } else {
        let p = t.drop_last();
        assert forall|i: int| 0 <= i < p.len() implies is_digit(#[trigger] p[i]) by {
            assert(p[i] == t[i]);
            assert(is_digit(t[i]));
        }
        lemma_dec_val_upper(p);
        assert(is_digit(t[t.len() - 1]));
        assert(t.last() == t[t.len() - 1]);
        assert(digit_val(t.last()) <= 9);
        assert(ten_pow(t.len() as int) == 10 * ten_pow(t.len() - 1));
    }
}

/// Reads the canonical decimal form of a result code.
pub fn parse_u16(s: &str) -> (r: Option<u16>)
    ensures
        r == spec_parse_u16(s@),
{
    let n = s.unicode_len();
    if n == 0 {
        return None;
    }
    if n > 1 && s.get_char(0) == '0' {
        return None;
    }
    if n > 5 {
        // every value this long overflows, once each character is
        // known to be a digit
        let mut i: usize = 0;
        while i < n
            invariant
                i <= n,
                n == s@.len(),
                forall|j: int| 0 <= j < i ==> is_digit(#[trigger] s@[j]),
            decreases n - i,
        {
            if read_digit(s.get_char(i)).is_none() {
                return None;
            }
            i += 1;
        }
        proof {
            assert(all_digits(s@));
            lemma_dec_val_positive(s@);
            lemma_ten_pow_grows(5, s@.len() - 1);
            assert(ten_pow(1) == 10 * ten_pow(0));
            assert(ten_pow(2) == 10 * ten_pow(1));
            assert(ten_pow(3) == 10 * ten_pow(2));
            assert(ten_pow(4) == 10 * ten_pow(3));
            assert(ten_pow(5) == 10 * ten_pow(4));
            assert(dec_val(s@) >= 100000);
        }
        return None;
    }
    let mut acc: u32 = 0;
    let mut i: usize = 0;
    while i < n
        invariant
            i <= n <= 5,
            n == s@.len(),
            forall|j: int| 0 <= j < i ==> is_digit(#[trigger] s@[j]),
            acc as int == dec_val(s@.subrange(0, i as int)),
            acc as int <= ten_pow(i as int) - 1,
        decreases n - i,
    {
        let c = s.get_char(i);
        match read_digit(c) {
            Some(dv) => {
                proof {
                    assert(ten_pow(1) == 10 * ten_pow(0));
                    assert(ten_pow(2) == 10 * ten_pow(1));
                    assert(ten_pow(3) == 10 * ten_pow(2));
                    assert(ten_pow(4) == 10 * ten_pow(3));
                    assert(ten_pow(5) == 10 * ten_pow(4));
                    let pre = s@.subrange(0, i + 1 as int);
                    assert(pre.drop_last() =~= s@.subrange(0, i as int));
                    assert(pre.last() == s@[i as int]);
                    assert(ten_pow(i + 1 as int) == 10 * ten_pow(i as int));
                }
                acc = acc * 10 + (dv as u32);
                i += 1;
            },
            None => {
                return None;
            },
        }
    }
    proof {
        assert(s@.subrange(0, n as int) =~= s@);
    }
    if acc < 65536 {
        Some(acc as u16)
    } else {
        None
    }
}

} // verus!
