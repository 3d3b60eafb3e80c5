//! Session identifiers and their canonical text form.

use vstd::prelude::*;
use vstd::array::ArrayAdditionalExecFns;
use crate::text::{hex_char, hex_val, is_hex, make_hex, read_hex, push_char};

verus! {

/// The two lowercase hexadecimal digits of one byte.
pub open spec fn byte_hex(b: u8) -> Seq<char> {
    seq![hex_char(b as int / 16), hex_char(b as int % 16)]
}

/// The lowercase hexadecimal digits of a byte string, two per byte.
pub open spec fn hex_of(bs: Seq<u8>) -> Seq<char>
    decreases bs.len(),
{
    if bs.len() == 0 {
        Seq::empty()
    } else {
        byte_hex(bs[0]) + hex_of(bs.drop_first())
    }
}

pub proof fn lemma_hex_of_len(bs: Seq<u8>)
    ensures
        hex_of(bs).len() == 2 * bs.len(),
    decreases bs.len(),
{
    if bs.len() > 0 {
        lemma_hex_of_len(bs.drop_first());
    }
}

pub proof fn lemma_hex_of_snoc(bs: Seq<u8>, b: u8)
    ensures
        hex_of(bs.push(b)) == hex_of(bs) + byte_hex(b),
    decreases bs.len(),
{
    if bs.len() == 0 {
        assert(bs.push(b).drop_first() =~= bs);
        assert(hex_of(bs.push(b)) =~= hex_of(bs) + byte_hex(b));
    } else {
        assert(bs.push(b).drop_first() =~= bs.drop_first().push(b));
        lemma_hex_of_snoc(bs.drop_first(), b);
        assert(hex_of(bs.push(b)) =~= hex_of(bs) + byte_hex(b));
    }
}

/// The canonical text form of a session id: five lowercase hexadecimal
/// groups of 8, 4, 4, 4 and 12 digits, separated by hyphens.
pub open spec fn spec_session_text(b: Seq<u8>) -> Seq<char> {
    hex_of(b.subrange(0, 4)) + seq!['-'] + hex_of(b.subrange(4, 6)) + seq!['-'] + hex_of(
        b.subrange(6, 8),
    ) + seq!['-'] + hex_of(b.subrange(8, 10)) + seq!['-'] + hex_of(b.subrange(10, 16))
}

/// Parses pairs of hexadecimal digits (either case) into bytes.
pub open spec fn hex_pair_bytes(t: Seq<char>) -> Option<Seq<u8>>
    decreases t.len(),
{
    if t.len() == 0 {
        Some(Seq::empty())
    } else if t.len() == 1 {
        None
    } else if is_hex(t[0]) && is_hex(t[1]) {
        match hex_pair_bytes(t.subrange(2, t.len() as int)) {
            Some(rest) => Some(seq![(16 * hex_val(t[0]) + hex_val(t[1])) as u8] + rest),
            None => None,
        }
    } else {
        None
    }
}

pub proof fn lemma_hex_pair_bytes_of(bs: Seq<u8>)
    ensures
        hex_pair_bytes(hex_of(bs)) == Some(bs),
    decreases bs.len(),
{
    if bs.len() == 0 {
        assert(hex_of(bs).len() == 0);
        assert(hex_pair_bytes(hex_of(bs)) == Some(bs)) by {
            assert(bs =~= Seq::<u8>::empty());
        }
    } else {
        let t = hex_of(bs);
        let b0 = bs[0];
        crate::text::lemma_hex_char_val(b0 as int / 16);
        crate::text::lemma_hex_char_val(b0 as int % 16);
        lemma_hex_of_len(bs.drop_first());
        assert(t.len() >= 2);
        assert(t[0] == hex_char(b0 as int / 16));
        assert(t[1] == hex_char(b0 as int % 16));
        assert(t.subrange(2, t.len() as int) =~= hex_of(bs.drop_first()));
        lemma_hex_pair_bytes_of(bs.drop_first());
        assert(16 * (b0 as int / 16) + (b0 as int % 16) == b0 as int);
        assert(seq![b0] + bs.drop_first() =~= bs);
    }
}

/// Parses the hyphen-grouped text form; accepts either case of digit.
pub open spec fn spec_parse_session(t: Seq<char>) -> Option<Seq<u8>> {
    if t.len() == 36 && t[8] == '-' && t[13] == '-' && t[18] == '-' && t[23] == '-' {
        match (
            hex_pair_bytes(t.subrange(0, 8)),
            hex_pair_bytes(t.subrange(9, 13)),
            hex_pair_bytes(t.subrange(14, 18)),
            hex_pair_bytes(t.subrange(19, 23)),
            hex_pair_bytes(t.subrange(24, 36)),
        ) {
            (Some(a), Some(b), Some(c), Some(d), Some(e)) => Some(a + b + c + d + e),
            _ => None,
        }
    } else {
        None
    }
}

/// A session identifier: the 16 raw bytes of a UUID. Shell front-ends
/// generate one per interactive session; the daemon uses it to pair a
/// start event with its finish event.
#[derive(Clone, Copy, Debug, PartialEq, Eq, Hash)]
pub struct SessionId {
    pub bytes: [u8; 16],
}

impl View for SessionId {
    type V = Seq<u8>;

    open spec fn view(&self) -> Seq<u8> {
        self.bytes@
    }
}

impl SessionId {
    pub fn new(bytes: [u8; 16]) -> (r: SessionId)
        ensures
            r@ == bytes@,
    {
        SessionId { bytes }
    }

    fn push_hex(&self, s: &mut String, from: usize, to: usize)
        requires
            from <= to <= 16,
        ensures
            final(s)@ == old(s)@ + hex_of(self@.subrange(from as int, to as int)),
    {
        proof {
            assert(self@.subrange(from as int, from as int) =~= Seq::<u8>::empty());
            assert(s@ =~= s@ + hex_of(self@.subrange(from as int, from as int)));
        }
        let mut i = from;
        while i < to
            invariant
                from <= i <= to <= 16,
                self@.len() == 16,
                s@ == old(s)@ + hex_of(self@.subrange(from as int, i as int)),
            decreases to - i,
        {
            let b = self.bytes[i];
            push_char(s, make_hex(b / 16));
            push_char(s, make_hex(b % 16));
            proof {
                let pre = self@.subrange(from as int, i as int);
                assert(self@.subrange(from as int, i + 1 as int) =~= pre.push(self@[i as int]));
                lemma_hex_of_snoc(pre, self@[i as int]);
                assert(s@ =~= old(s)@ + hex_of(self@.subrange(from as int, i + 1 as int)));
            }
            i += 1;
        }
    }

    /// The canonical hyphen-grouped text form.
    pub fn to_text(&self) -> (r: String)
        ensures
            r@ == spec_session_text(self@),
    {
        let mut s = String::new();
        self.push_hex(&mut s, 0, 4);
        push_char(&mut s, '-');
        self.push_hex(&mut s, 4, 6);
        push_char(&mut s, '-');
        self.push_hex(&mut s, 6, 8);
        push_char(&mut s, '-');
        self.push_hex(&mut s, 8, 10);
        push_char(&mut s, '-');
        self.push_hex(&mut s, 10, 16);
        proof {
            assert(s@ =~= spec_session_text(self@));
        }
        s
    }

    /// Parses the hyphen-grouped text form, either case of digit.
    pub fn from_text(s: &str) -> (r: Option<SessionId>)
        ensures
            r matches Some(sid) ==> spec_parse_session(s@) == Some(sid@),
            r is None ==> spec_parse_session(s@) is None,
    {
        let n = s.unicode_len();
        if n != 36 {
            return None;
        }
        if !(s.get_char(8) == '-' && s.get_char(13) == '-' && s.get_char(18) == '-' && s.get_char(
            23,
        ) == '-') {
            return None;
        }
        let mut v: Vec<u8> = Vec::new();
        if !parse_hex_range(s, 0, 8, &mut v) {
            return None;
        }
        if !parse_hex_range(s, 9, 13, &mut v) {
            return None;
        }
        if !parse_hex_range(s, 14, 18, &mut v) {
            return None;
        }
        if !parse_hex_range(s, 19, 23, &mut v) {
            return None;
        }
        if !parse_hex_range(s, 24, 36, &mut v) {
            return None;
        }
        proof {
            let t = s@;
            let a = hex_pair_bytes(t.subrange(0, 8)).unwrap();
            let b = hex_pair_bytes(t.subrange(9, 13)).unwrap();
            let c = hex_pair_bytes(t.subrange(14, 18)).unwrap();
            let d = hex_pair_bytes(t.subrange(19, 23)).unwrap();
            let e = hex_pair_bytes(t.subrange(24, 36)).unwrap();
            lemma_hex_pair_bytes_len(t.subrange(0, 8));
            lemma_hex_pair_bytes_len(t.subrange(9, 13));
            lemma_hex_pair_bytes_len(t.subrange(14, 18));
            lemma_hex_pair_bytes_len(t.subrange(19, 23));
            lemma_hex_pair_bytes_len(t.subrange(24, 36));
            assert(v@ =~= a + b + c + d + e);
            assert(spec_parse_session(s@) == Some(v@));
        }
        let mut bytes: [u8; 16] = [0;16];
        let mut i: usize = 0;
        while i < 16
            invariant
                i <= 16,
                v@.len() == 16,
                forall|j: int| 0 <= j < i ==> bytes@[j] == v@[j],
            decreases 16 - i,
        {
            bytes.set(i, v[i]);
            i += 1;
        }
        proof {
            assert(bytes@ =~= v@);
        }
        Some(SessionId { bytes })
    }

    /// Byte-wise equality, usable from verified code.
    pub fn same(&self, other: &SessionId) -> (r: bool)
        ensures
            r == (self@ == other@),
    {
        let mut i: usize = 0;
        while i < 16
            invariant
                i <= 16,
                forall|j: int| 0 <= j < i ==> self@[j] == other@[j],
            decreases 16 - i,
        {
            if self.bytes[i] != other.bytes[i] {
                assert(self@[i as int] != other@[i as int]);
                return false;
            }
            i += 1;
        }
        proof {
            assert(self@ =~= other@);
        }
        true
    }
}

pub proof fn lemma_hex_pair_bytes_len(t: Seq<char>)
    ensures
        hex_pair_bytes(t) matches Some(bs) ==> 2 * bs.len() == t.len(),
    decreases t.len(),
{
    if t.len() >= 2 && is_hex(t[0]) && is_hex(t[1]) {
        lemma_hex_pair_bytes_len(t.subrange(2, t.len() as int));
    }
}

/// Parses the characters of `s` between `from` and `to` as hexadecimal
/// pairs, appending the bytes to `out`; leaves `out`'s prefix untouched.
fn parse_hex_range(s: &str, from: usize, to: usize, out: &mut Vec<u8>) -> (ok: bool)
    requires
        from <= to <= s@.len(),
        (to - from) % 2 == 0,
    ensures
        ok ==> final(out)@.len() >= old(out)@.len() && final(out)@.subrange(
            0,
            old(out)@.len() as int,
        ) == old(out)@ && hex_pair_bytes(s@.subrange(from as int, to as int)) == Some(
            final(out)@.subrange(old(out)@.len() as int, final(out)@.len() as int),
        ),
        !ok ==> hex_pair_bytes(s@.subrange(from as int, to as int)) is None,
{
    let ghost base = old(out)@;
    let mut i = from;
    while i < to
        invariant
            from <= i <= to <= s@.len(),
            (to - i) % 2 == 0,
            out@.len() >= base.len(),
            out@.subrange(0, base.len() as int) == base,
            (match hex_pair_bytes(s@.subrange(i as int, to as int)) {
                Some(rest) => hex_pair_bytes(s@.subrange(from as int, to as int)) == Some(
                    out@.subrange(base.len() as int, out@.len() as int) + rest,
                ),
                None => hex_pair_bytes(s@.subrange(from as int, to as int)) is None,
            }),
        decreases to - i,
    {
        let c1 = s.get_char(i);
        let c2 = s.get_char(i + 1);
        let d1 = read_hex(c1);
        let d2 = read_hex(c2);
        proof {
            let cur = s@.subrange(i as int, to as int);
            assert(cur.len() >= 2);
            assert(cur[0] == s@[i as int]);
            assert(cur[1] == s@[i as int + 1]);
            assert(cur.subrange(2, cur.len() as int) =~= s@.subrange(i as int + 2, to as int));
        }
        match (d1, d2) {
            (Some(h1), Some(h2)) => {
                let b: u8 = h1 * 16 + h2;
                out.push(b);
                proof {
                    let cur = s@.subrange(i as int, to as int);
                    let nxt = s@.subrange(i as int + 2, to as int);
                    assert(hex_pair_bytes(cur) == (match hex_pair_bytes(nxt) {
                        Some(rest) => Some(seq![b] + rest),
                        None => None::<Seq<u8>>,
                    }));
                    if hex_pair_bytes(nxt) is Some {
                        let rest = hex_pair_bytes(nxt).unwrap();
                        assert(out@.subrange(base.len() as int, out@.len() as int) + rest =~= out@.subrange(
                            base.len() as int,
                            out@.len() as int - 1,
                        ) + (seq![b] + rest));
                    }
                    assert(out@.subrange(0, base.len() as int) =~= base);
                }
                i += 2;
            },
            _ => {
                return false;
            },
        }
    }
    proof {
        assert(s@.subrange(to as int, to as int) =~= Seq::<char>::empty());
        assert(out@.subrange(base.len() as int, out@.len() as int) + Seq::<u8>::empty() =~= out@.subrange(
            base.len() as int,
            out@.len() as int,
        ));
    }
    true
}

/// The canonical text form of a session id parses back to the same bytes.
pub proof fn lemma_session_text_round_trip(b: Seq<u8>)
    requires
        b.len() == 16,
    ensures
        spec_parse_session(spec_session_text(b)) == Some(b),
{
    let t = spec_session_text(b);
    let g1 = b.subrange(0, 4);
    let g2 = b.subrange(4, 6);
    let g3 = b.subrange(6, 8);
    let g4 = b.subrange(8, 10);
    let g5 = b.subrange(10, 16);
    lemma_hex_of_len(g1);
    lemma_hex_of_len(g2);
    lemma_hex_of_len(g3);
    lemma_hex_of_len(g4);
    lemma_hex_of_len(g5);
    assert(t.len() == 36);
    assert(t[8] == '-');
    assert(t[13] == '-');
    assert(t[18] == '-');
    assert(t[23] == '-');
    assert(t.subrange(0, 8) =~= hex_of(g1));
    assert(t.subrange(9, 13) =~= hex_of(g2));
    assert(t.subrange(14, 18) =~= hex_of(g3));
    assert(t.subrange(19, 23) =~= hex_of(g4));
    assert(t.subrange(24, 36) =~= hex_of(g5));
    lemma_hex_pair_bytes_of(g1);
    lemma_hex_pair_bytes_of(g2);
    lemma_hex_pair_bytes_of(g3);
    lemma_hex_pair_bytes_of(g4);
    lemma_hex_pair_bytes_of(g5);
    assert(g1 + g2 + g3 + g4 + g5 =~= b);
}

} // verus!
