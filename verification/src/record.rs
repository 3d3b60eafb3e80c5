//! The per-host index's file format: comma-separated rows, one record
//! per line, a field quoted (with doubled inner quotes) whenever it
//! holds a comma, a quote, or a line break. The first record of a file
//! is its header.

use vstd::prelude::*;
use crate::entry::{Entry, EntryView};
use crate::timestamp::{Timestamp, spec_rfc3339};
use crate::session::{SessionId, spec_session_text, spec_parse_session};
use crate::text::{spec_dec, spec_parse_u16, push_char, push_dec, parse_u16};

verus! {

/// One step of the record splitter: a line break outside quotes ends
/// the current record; a quote toggles the in-quotes state.
pub open spec fn csv_step(st: (Seq<Seq<char>>, Seq<char>, bool), c: char) -> (
    Seq<Seq<char>>,
    Seq<char>,
    bool,
) {
    if c == '\n' && !st.2 {
        (st.0.push(st.1), Seq::empty(), false)
    } else if c == '"' {
        (st.0, st.1.push(c), !st.2)
    } else {
        (st.0, st.1.push(c), st.2)
    }
}

pub open spec fn csv_fold(st: (Seq<Seq<char>>, Seq<char>, bool), t: Seq<char>) -> (
    Seq<Seq<char>>,
    Seq<char>,
    bool,
)
    decreases t.len(),
{
    if t.len() == 0 {
        st
    } else {
        csv_step(csv_fold(st, t.drop_last()), t.last())
    }
}

/// The complete records of a file, the unfinished tail, and whether the
/// tail ends inside quotes.
pub open spec fn split_all(t: Seq<char>) -> (Seq<Seq<char>>, Seq<char>, bool) {
    csv_fold((Seq::empty(), Seq::empty(), false), t)
}

/// Every record of the file is complete.
pub open spec fn complete(t: Seq<char>) -> bool {
    split_all(t).1.len() == 0 && !split_all(t).2
}

pub open spec fn records(t: Seq<char>) -> Seq<Seq<char>> {
    split_all(t).0
}

/// The records a reader sees: an unfinished tail still counts as one.
pub open spec fn all_records(t: Seq<char>) -> Seq<Seq<char>> {
    if split_all(t).1.len() == 0 {
        records(t)
    } else {
        records(t).push(split_all(t).1)
    }
}

pub proof fn lemma_csv_fold_concat(st: (Seq<Seq<char>>, Seq<char>, bool), a: Seq<char>, b: Seq<char>)
    ensures
        csv_fold(st, a + b) == csv_fold(csv_fold(st, a), b),
    decreases b.len(),
{
    if b.len() == 0 {
        assert(a + b =~= a);
    } else {
        assert((a + b).drop_last() =~= a + b.drop_last());
        lemma_csv_fold_concat(st, a, b.drop_last());
        assert((a + b).last() == b.last());
        assert(csv_fold(st, a + b) == csv_step(csv_fold(st, (a + b).drop_last()), b.last()));
    }
}

proof fn lemma_csv_fold_one(st: (Seq<Seq<char>>, Seq<char>, bool), c: char)
    ensures
        csv_fold(st, seq![c]) == csv_step(st, c),
{
    assert(seq![c].drop_last() =~= Seq::<char>::empty());
    assert(csv_fold(st, Seq::<char>::empty()) == st);
    assert(seq![c].last() == c);
}

/// Whether a field must be quoted to survive the trip.
pub open spec fn needs_quotes(s: Seq<char>) -> bool {
    exists|i: int|
        0 <= i < s.len() && (#[trigger] s[i] == ',' || s[i] == '"' || s[i] == '\n' || s[i]
            == '\r')
}

/// The inside of a quoted field: every quote doubled.
pub open spec fn escape_inner(s: Seq<char>) -> Seq<char>
    decreases s.len(),
{
    if s.len() == 0 {
        Seq::empty()
    } else if s[0] == '"' {
        seq!['"', '"'] + escape_inner(s.drop_first())
    } else {
        seq![s[0]] + escape_inner(s.drop_first())
    }
}

/// A field as written: quoted when it needs to be, verbatim otherwise.
pub open spec fn enc_field(s: Seq<char>) -> Seq<char> {
    if needs_quotes(s) {
        seq!['"'] + escape_inner(s) + seq!['"']
    } else {
        s
    }
}

/// The eight field texts of one entry's record, in stored order.
pub open spec fn fields_of(e: EntryView) -> Seq<Seq<char>> {
    seq![
        spec_rfc3339(e.time_finished),
        spec_rfc3339(e.time_start),
        e.hostname,
        e.command,
        e.pwd,
        spec_dec(e.result as int),
        spec_session_text(e.session_id),
        e.user,
    ]
}

/// Encoded fields joined by commas.
pub open spec fn join_fields(fs: Seq<Seq<char>>) -> Seq<char>
    decreases fs.len(),
{
    if fs.len() == 0 {
        Seq::empty()
    } else if fs.len() == 1 {
        enc_field(fs[0])
    } else {
        enc_field(fs[0]) + seq![','] + join_fields(fs.drop_first())
    }
}

/// One record's text, without its terminating line break.
pub open spec fn row_line(e: EntryView) -> Seq<char> {
    join_fields(fields_of(e))
}

/// The bytes appended to the index for one entry.
pub open spec fn spec_row(e: EntryView) -> Seq<char> {
    row_line(e) + seq!['\n']
}

/// Text with no quote and no line break folds into the current record.
proof fn lemma_fold_plain(st: (Seq<Seq<char>>, Seq<char>, bool), s: Seq<char>)
    requires
        forall|i: int| 0 <= i < s.len() ==> #[trigger] s[i] != '"' && s[i] != '\n',
    ensures
        csv_fold(st, s) == (st.0, st.1 + s, st.2),
    decreases s.len(),
{
    if s.len() == 0 {
        assert(st.1 + s =~= st.1);
    } else {
        assert(forall|i: int|
            0 <= i < s.len() - 1 ==> #[trigger] s.drop_last()[i] == s[i]);
        lemma_fold_plain(st, s.drop_last());
        assert(s.last() != '"' && s.last() != '\n');
        assert((st.1 + s.drop_last()).push(s.last()) =~= st.1 + s);
    }
}

/// Inside quotes, escaped text folds into the current record and the
/// quote state comes back where it started.
proof fn lemma_fold_escaped(st: (Seq<Seq<char>>, Seq<char>, bool), s: Seq<char>)
    requires
        st.2,
    ensures
        csv_fold(st, escape_inner(s)) == (st.0, st.1 + escape_inner(s), true),
    decreases s.len(),
{
    if s.len() == 0 {
        assert(st.1 + escape_inner(s) =~= st.1);
    } else if s[0] == '"' {
        let head = seq!['"', '"'];
        let rest = escape_inner(s.drop_first());
        lemma_csv_fold_concat(st, head, rest);
        assert(head.drop_last() =~= seq!['"']);
        lemma_csv_fold_one(st, '"');
        assert(csv_fold(st, head) == csv_step(csv_step(st, '"'), '"'));
        let st2 = (st.0, st.1 + head, true);
        assert(csv_fold(st, head) == st2) by {
            assert(st.1.push('"').push('"') =~= st.1 + head);
        }
        lemma_fold_escaped(st2, s.drop_first());
        assert(st.1 + head + rest =~= st.1 + escape_inner(s));
    } else {
        let head = seq![s[0]];
        let rest = escape_inner(s.drop_first());
        lemma_csv_fold_concat(st, head, rest);
        lemma_csv_fold_one(st, s[0]);
        let st2 = (st.0, st.1 + head, true);
        assert(csv_fold(st, head) == st2) by {
            assert(st.1.push(s[0]) =~= st.1 + head);
        }
        lemma_fold_escaped(st2, s.drop_first());
        assert(st.1 + head + rest =~= st.1 + escape_inner(s));
    }
}

/// An encoded field folds into the current record, outside quotes.
proof fn lemma_fold_enc_field(st: (Seq<Seq<char>>, Seq<char>, bool), s: Seq<char>)
    requires
        !st.2,
    ensures
        csv_fold(st, enc_field(s)) == (st.0, st.1 + enc_field(s), false),
    decreases s.len(),
{
    if needs_quotes(s) {
        let inner = escape_inner(s);
        let opened = (st.0, st.1.push('"'), true);
        lemma_csv_fold_one(st, '"');
        assert(csv_fold(st, seq!['"']) == opened);
        lemma_csv_fold_concat(st, seq!['"'], inner);
        lemma_fold_escaped(opened, s);
        lemma_csv_fold_concat(st, seq!['"'] + inner, seq!['"']);
        let after_inner = (st.0, st.1.push('"') + inner, true);
        lemma_csv_fold_one(after_inner, '"');
        assert(enc_field(s) == seq!['"'] + inner + seq!['"']);
        assert((st.1.push('"') + inner).push('"') =~= st.1 + enc_field(s));
    } else {
        assert(forall|i: int|
            0 <= i < s.len() ==> #[trigger] s[i] != '"' && s[i] != '\n');
        lemma_fold_plain(st, s);
    }
}

proof fn lemma_fold_comma(st: (Seq<Seq<char>>, Seq<char>, bool))
    requires
        !st.2,
    ensures
        csv_fold(st, seq![',']) == (st.0, st.1.push(','), false),
{
    lemma_csv_fold_one(st, ',');
}

/// Joined fields fold into the current record, outside quotes.
proof fn lemma_fold_join(st: (Seq<Seq<char>>, Seq<char>, bool), fs: Seq<Seq<char>>)
    requires
        !st.2,
    ensures
        csv_fold(st, join_fields(fs)) == (st.0, st.1 + join_fields(fs), false),
    decreases fs.len(),
{
    if fs.len() == 0 {
        assert(st.1 + join_fields(fs) =~= st.1);
    } else if fs.len() == 1 {
        lemma_fold_enc_field(st, fs[0]);
    } else {
        let f = enc_field(fs[0]);
        let rest = join_fields(fs.drop_first());
        lemma_csv_fold_concat(st, f + seq![','], rest);
        lemma_csv_fold_concat(st, f, seq![',']);
        lemma_fold_enc_field(st, fs[0]);
        lemma_fold_comma((st.0, st.1 + f, false));
        let st2 = (st.0, (st.1 + f).push(','), false);
        assert(csv_fold(st, f + seq![',']) == st2);
        lemma_fold_join(st2, fs.drop_first());
        assert((st.1 + f).push(',') + rest =~= st.1 + join_fields(fs));
    }
}

/// One appended row becomes exactly one new record.
proof fn lemma_fold_row(st: (Seq<Seq<char>>, Seq<char>, bool), e: EntryView)
    requires
        !st.2,
        st.1.len() == 0,
    ensures
        csv_fold(st, spec_row(e)) == (st.0.push(row_line(e)), Seq::<char>::empty(), false),
{
    lemma_csv_fold_concat(st, row_line(e), seq!['\n']);
    lemma_fold_join(st, fields_of(e));
    lemma_csv_fold_one((st.0, st.1 + row_line(e), false), '\n');
    assert(st.1 + row_line(e) =~= row_line(e));
}

/// Appending one row to a file whose records are all complete adds
/// exactly one record.
pub proof fn lemma_records_append(c: Seq<char>, e: EntryView)
    requires
        complete(c),
    ensures
        complete(c + spec_row(e)),
        records(c + spec_row(e)) == records(c).push(row_line(e)),
{
    lemma_csv_fold_concat((Seq::empty(), Seq::empty(), false), c, spec_row(e));
    lemma_fold_row(split_all(c), e);
}

/// An unquoted field: everything up to the next comma or the record's
/// end.
pub open spec fn parse_raw_f(rec: Seq<char>, i: int) -> (Seq<char>, int)
    decreases rec.len() - i,
{
    if !(0 <= i < rec.len()) {
        (Seq::empty(), i)
    } else if rec[i] == ',' {
        (Seq::empty(), i)
    } else {
        let r = parse_raw_f(rec, i + 1);
        (seq![rec[i]] + r.0, r.1)
    }
}

/// The rest of a quoted field, after its opening quote: doubled quotes
/// are literal, a lone quote closes the field.
pub open spec fn parse_quoted_f(rec: Seq<char>, i: int) -> Option<(Seq<char>, int)>
    decreases rec.len() - i,
{
    if !(0 <= i < rec.len()) {
        None
    } else if rec[i] == '"' {
        if i + 1 < rec.len() && rec[i + 1] == '"' {
            match parse_quoted_f(rec, i + 2) {
                Some(r) => Some((seq!['"'] + r.0, r.1)),
                None => None,
            }
        } else {
            Some((Seq::empty(), i + 1))
        }
    } else {
        match parse_quoted_f(rec, i + 1) {
            Some(r) => Some((seq![rec[i]] + r.0, r.1)),
            None => None,
        }
    }
}

pub open spec fn parse_field_f(rec: Seq<char>, i: int) -> Option<(Seq<char>, int)> {
    if 0 <= i < rec.len() && rec[i] == '"' {
        parse_quoted_f(rec, i + 1)
    } else if 0 <= i <= rec.len() {
        Some(parse_raw_f(rec, i))
    } else {
        None
    }
}

/// `n` comma-separated fields starting at `i`.
pub open spec fn parse_fields_f(rec: Seq<char>, i: int, n: int) -> Option<(Seq<Seq<char>>, int)>
    decreases n,
{
    if n <= 0 {
        None
    } else if n == 1 {
        match parse_field_f(rec, i) {
            Some(r) => Some((seq![r.0], r.1)),
            None => None,
        }
    } else {
        match parse_field_f(rec, i) {
            Some(r) => {
                if 0 <= r.1 < rec.len() && rec[r.1] == ',' {
                    match parse_fields_f(rec, r.1 + 1, n - 1) {
                        Some(q) => Some((seq![r.0] + q.0, q.1)),
                        None => None,
                    }
                } else {
                    None
                }
            },
            None => None,
        }
    }
}

/// The eight fields of one whole record.
pub open spec fn parse_line(rec: Seq<char>) -> Option<Seq<Seq<char>>> {
    match parse_fields_f(rec, 0, 8) {
        Some(r) => if r.1 == rec.len() {
            Some(r.0)
        } else {
            None
        },
        None => None,
    }
}

/// The entry a record's fields describe, if every field reads back.
pub open spec fn entry_from_fields(fs: Seq<Seq<char>>) -> Option<EntryView> {
    if fs.len() != 8 {
        None
    } else {
        match (
            crate::timestamp::spec_parse_rfc3339(fs[0]),
            crate::timestamp::spec_parse_rfc3339(fs[1]),
            spec_parse_u16(fs[5]),
            spec_parse_session(fs[6]),
        ) {
            (Some(tf), Some(ts), Some(res), Some(sid)) => Some(
                EntryView {
                    time_finished: tf,
                    time_start: ts,
                    hostname: fs[2],
                    command: fs[3],
                    pwd: fs[4],
                    result: res,
                    session_id: sid,
                    user: fs[7],
                },
            ),
            _ => None,
        }
    }
}

pub open spec fn spec_parse_record_line(rec: Seq<char>) -> Option<EntryView> {
    match parse_line(rec) {
        Some(fs) => entry_from_fields(fs),
        None => None,
    }
}

/// The entries of a file's records, after the header.
pub open spec fn parse_lines(rs: Seq<Seq<char>>) -> Option<Seq<EntryView>>
    decreases rs.len(),
{
    if rs.len() == 0 {
        Some(Seq::empty())
    } else {
        match (spec_parse_record_line(rs[0]), parse_lines(rs.drop_first())) {
            (Some(e), Some(es)) => Some(seq![e] + es),
            _ => None,
        }
    }
}

/// The entries of a whole index file: the first record is the header
/// and carries no entry.
pub open spec fn spec_parse_index(t: Seq<char>) -> Option<Seq<EntryView>> {
    let rs = all_records(t);
    if rs.len() == 0 {
        Some(Seq::empty())
    } else {
        parse_lines(rs.drop_first())
    }
}

/// Splits knowledge of a two-part segment of `d` into its parts.
proof fn lemma_split_concat_chars(d: Seq<char>, i: int, u: Seq<char>, v: Seq<char>)
    requires
        0 <= i,
        i + u.len() + v.len() <= d.len(),
        d.subrange(i, i + u.len() + v.len()) == u + v,
    ensures
        d.subrange(i, i + u.len() as int) == u,
        d.subrange(i + u.len() as int, i + u.len() + v.len()) == v,
{
    assert forall|k: int| 0 <= k < u.len() implies #[trigger] d.subrange(
        i,
        i + u.len() as int,
    )[k] == u[k] by {
        assert(d.subrange(i, i + u.len() as int)[k] == d[i + k]);
        assert(d.subrange(i, i + u.len() + v.len())[k] == d[i + k]);
        assert((u + v)[k] == u[k]);
    }
    assert(d.subrange(i, i + u.len() as int) =~= u);
    assert forall|k: int| 0 <= k < v.len() implies #[trigger] d.subrange(
        i + u.len() as int,
        i + u.len() + v.len(),
    )[k] == v[k] by {
        assert(d.subrange(i + u.len() as int, i + u.len() + v.len())[k] == d[i + u.len() + k]);
        assert(d.subrange(i, i + u.len() + v.len())[u.len() + k] == d[i + u.len() + k]);
        assert((u + v)[u.len() + k] == v[k]);
    }
    assert(d.subrange(i + u.len() as int, i + u.len() + v.len()) =~= v);
}

proof fn lemma_parse_raw_of(rec: Seq<char>, i: int, s: Seq<char>)
    requires
        0 <= i,
        i + s.len() <= rec.len(),
        !needs_quotes(s),
        rec.subrange(i, i + s.len() as int) == s,
        i + s.len() == rec.len() || rec[i + s.len()] == ',',
    ensures
        parse_raw_f(rec, i) == (s, i + s.len()),
    decreases s.len(),
{
    if s.len() == 0 {
        assert(parse_raw_f(rec, i) == (Seq::<char>::empty(), i));
        assert(s =~= Seq::<char>::empty());
    } else {
        assert(rec[i] == s[0]) by {
            assert(rec.subrange(i, i + s.len() as int)[0] == rec[i]);
        }
        assert(s[0] != ',');
        let s2 = s.drop_first();
        assert(!needs_quotes(s2)) by {
            if needs_quotes(s2) {
                let k = choose|k: int|
                    0 <= k < s2.len() && (#[trigger] s2[k] == ',' || s2[k] == '"' || s2[k] == '\n'
                        || s2[k] == '\r');
                assert(s[k + 1] == s2[k]);
            }
        }
        assert(rec.subrange(i + 1, i + 1 + s2.len() as int) =~= s2) by {
            assert(forall|k: int|
                0 <= k < s2.len() ==> rec.subrange(i + 1, i + 1 + s2.len() as int)[k] == rec[
                    #[trigger] (i + 1 + k)
                ]);
            assert(forall|k: int|
                0 <= k < s2.len() ==> rec.subrange(i, i + s.len() as int)[k + 1] == rec[
                    #[trigger] (i + 1 + k)
                ]);
        }
        lemma_parse_raw_of(rec, i + 1, s2);
        assert(seq![rec[i]] + s2 =~= s);
    }
}

proof fn lemma_parse_quoted_of(rec: Seq<char>, i: int, s: Seq<char>)
    requires
        0 <= i,
        i + escape_inner(s).len() + 1 <= rec.len(),
        rec.subrange(i, i + escape_inner(s).len() + 1) == escape_inner(s) + seq!['"'],
        i + escape_inner(s).len() + 1 == rec.len() || rec[i + escape_inner(s).len() + 1] == ',',
    ensures
        parse_quoted_f(rec, i) == Some((s, i + escape_inner(s).len() + 1)),
    decreases s.len(),
{
    let m = escape_inner(s).len() as int;
    if s.len() == 0 {
        assert(rec[i] == '"') by {
            assert(rec.subrange(i, i + 1)[0] == rec[i]);
            assert((escape_inner(s) + seq!['"'])[0] == '"');
        }
        assert(!(i + 1 < rec.len() && rec[i + 1] == '"'));
    } else if s[0] == '"' {
        let s2 = s.drop_first();
        let e2 = escape_inner(s2);
        assert(escape_inner(s) == seq!['"', '"'] + e2);
        assert(rec[i] == '"' && rec[i + 1] == '"') by {
            assert(rec.subrange(i, i + m + 1)[0] == rec[i]);
            assert(rec.subrange(i, i + m + 1)[1] == rec[i + 1]);
            assert((escape_inner(s) + seq!['"'])[0] == '"');
            assert((escape_inner(s) + seq!['"'])[1] == '"');
        }
        assert(rec.subrange(i, i + m + 1) == seq!['"', '"'] + (e2 + seq!['"'])) by {
            assert(escape_inner(s) + seq!['"'] =~= seq!['"', '"'] + (e2 + seq!['"']));
        }
        lemma_split_concat_chars(rec, i, seq!['"', '"'], e2 + seq!['"']);
        lemma_parse_quoted_of(rec, i + 2, s2);
        assert(seq!['"'] + s2 =~= s);
    } else {
        let s2 = s.drop_first();
        let e2 = escape_inner(s2);
        assert(escape_inner(s) == seq![s[0]] + e2);
        assert(rec[i] == s[0]) by {
            assert(rec.subrange(i, i + m + 1)[0] == rec[i]);
            assert((escape_inner(s) + seq!['"'])[0] == s[0]);
        }
        assert(rec[i] != '"');
        assert(rec.subrange(i, i + m + 1) == seq![s[0]] + (e2 + seq!['"'])) by {
            assert(escape_inner(s) + seq!['"'] =~= seq![s[0]] + (e2 + seq!['"']));
        }
        lemma_split_concat_chars(rec, i, seq![s[0]], e2 + seq!['"']);
        lemma_parse_quoted_of(rec, i + 1, s2);
        assert(seq![s[0]] + s2 =~= s);
    }
}

proof fn lemma_parse_field_of(rec: Seq<char>, i: int, s: Seq<char>)
    requires
        0 <= i,
        i + enc_field(s).len() <= rec.len(),
        rec.subrange(i, i + enc_field(s).len() as int) == enc_field(s),
        i + enc_field(s).len() == rec.len() || rec[i + enc_field(s).len()] == ',',
    ensures
        parse_field_f(rec, i) == Some((s, i + enc_field(s).len())),
{
    if needs_quotes(s) {
        let inner = escape_inner(s);
        assert(rec[i] == '"') by {
            assert(rec.subrange(i, i + enc_field(s).len() as int)[0] == rec[i]);
            assert(enc_field(s)[0] == '"');
        }
        assert(rec.subrange(i, i + enc_field(s).len() as int) == seq!['"'] + (inner
            + seq!['"'])) by {
            assert(enc_field(s) =~= seq!['"'] + (inner + seq!['"']));
        }
        lemma_split_concat_chars(rec, i, seq!['"'], inner + seq!['"']);
        lemma_parse_quoted_of(rec, i + 1, s);
    } else {
        if s.len() > 0 {
            assert(rec[i] == s[0]) by {
                assert(rec.subrange(i, i + enc_field(s).len() as int)[0] == rec[i]);
            }
            assert(s[0] != '"');
        } else {
            if i < rec.len() && rec[i] == '"' {
                assert(rec[i + enc_field(s).len()] == ',');
                assert(false);
            }
        }
        lemma_parse_raw_of(rec, i, s);
    }
}

proof fn lemma_rfc_not_special(t: Timestamp)
    requires
        t.valid(),
    ensures
        !needs_quotes(spec_rfc3339(t)),
{
    crate::timestamp::lemma_rfc3339_round_trip(t);
    let s = spec_rfc3339(t);
    assert(crate::timestamp::spec_parse_rfc3339(s) == Some(t));
    assert forall|i: int|
        0 <= i < s.len() implies !(#[trigger] s[i] == ',' || s[i] == '"' || s[i] == '\n' || s[i]
        == '\r') by {
        if i == 4 || i == 7 {
            assert(s[i] == '-');
        } else if i == 10 {
            assert(s[i] == 'T');
        } else if i == 13 || i == 16 {
            assert(s[i] == ':');
        } else if i == s.len() - 1 {
            assert(s[i] == 'Z');
        } else if s.len() == 30 && i == 19 {
            assert(s[i] == '.');
        } else {
            assert(crate::text::is_digit(s[i]));
        }
    }
}

proof fn lemma_hex_of_chars(bs: Seq<u8>)
    ensures
        forall|j: int|
            0 <= j < crate::session::hex_of(bs).len() ==> crate::text::is_hex(
                #[trigger] crate::session::hex_of(bs)[j],
            ),
    decreases bs.len(),
{
    if bs.len() > 0 {
        crate::text::lemma_hex_char_val(bs[0] as int / 16);
        crate::text::lemma_hex_char_val(bs[0] as int % 16);
        lemma_hex_of_chars(bs.drop_first());
        let h = crate::session::hex_of(bs);
        let rest = crate::session::hex_of(bs.drop_first());
        assert forall|j: int| 0 <= j < h.len() implies crate::text::is_hex(#[trigger] h[j]) by {
            if j >= 2 {
                assert(h[j] == rest[j - 2]);
            }
        }
    }
}

proof fn lemma_session_not_special(b: Seq<u8>)
    requires
        b.len() == 16,
    ensures
        !needs_quotes(spec_session_text(b)),
{
    let s = spec_session_text(b);
    let g1 = crate::session::hex_of(b.subrange(0, 4));
    let g2 = crate::session::hex_of(b.subrange(4, 6));
    let g3 = crate::session::hex_of(b.subrange(6, 8));
    let g4 = crate::session::hex_of(b.subrange(8, 10));
    let g5 = crate::session::hex_of(b.subrange(10, 16));
    crate::session::lemma_hex_of_len(b.subrange(0, 4));
    crate::session::lemma_hex_of_len(b.subrange(4, 6));
    crate::session::lemma_hex_of_len(b.subrange(6, 8));
    crate::session::lemma_hex_of_len(b.subrange(8, 10));
    crate::session::lemma_hex_of_len(b.subrange(10, 16));
    lemma_hex_of_chars(b.subrange(0, 4));
    lemma_hex_of_chars(b.subrange(4, 6));
    lemma_hex_of_chars(b.subrange(6, 8));
    lemma_hex_of_chars(b.subrange(8, 10));
    lemma_hex_of_chars(b.subrange(10, 16));
    assert forall|i: int|
        0 <= i < s.len() implies !(#[trigger] s[i] == ',' || s[i] == '"' || s[i] == '\n' || s[i]
        == '\r') by {
        if i < 8 {
            assert(s[i] == g1[i]);
            assert(crate::text::is_hex(s[i]));
        } else if i == 8 {
            assert(s[i] == '-');
        } else if i < 13 {
            assert(s[i] == g2[i - 9]);
            assert(crate::text::is_hex(s[i]));
        } else if i == 13 {
            assert(s[i] == '-');
        } else if i < 18 {
            assert(s[i] == g3[i - 14]);
            assert(crate::text::is_hex(s[i]));
        } else if i == 18 {
            assert(s[i] == '-');
        } else if i < 23 {
            assert(s[i] == g4[i - 19]);
            assert(crate::text::is_hex(s[i]));
        } else if i == 23 {
            assert(s[i] == '-');
        } else {
            assert(s[i] == g5[i - 24]);
            assert(crate::text::is_hex(s[i]));
        }
    }
}

proof fn lemma_dec_not_special(n: u16)
    ensures
        !needs_quotes(spec_dec(n as int)),
{
    crate::text::lemma_spec_dec_digits(n as int);
    let s = spec_dec(n as int);
    assert forall|i: int|
        0 <= i < s.len() implies !(#[trigger] s[i] == ',' || s[i] == '"' || s[i] == '\n' || s[i]
        == '\r') by {
        assert(crate::text::is_digit(s[i]));
    }
}

/// A joined field list parses back to its fields.
proof fn lemma_parse_join(rec: Seq<char>, i: int, fs: Seq<Seq<char>>)
    requires
        0 <= i,
        1 <= fs.len(),
        i + join_fields(fs).len() <= rec.len(),
        rec.subrange(i, i + join_fields(fs).len() as int) == join_fields(fs),
        i + join_fields(fs).len() == rec.len() || rec[i + join_fields(fs).len()] == ',',
    ensures
        parse_fields_f(rec, i, fs.len() as int) == Some((fs, i + join_fields(fs).len())),
    decreases fs.len(),
{
    if fs.len() == 1 {
        lemma_parse_field_of(rec, i, fs[0]);
        assert(seq![fs[0]] =~= fs);
    } else {
        let f = enc_field(fs[0]);
        let rest = seq![','] + join_fields(fs.drop_first());
        assert(join_fields(fs) =~= f + rest);
        lemma_split_concat_chars(rec, i, f, rest);
        let o = i + f.len() as int;
        assert(rec[o] == ',') by {
            assert(rec.subrange(o, o + rest.len() as int)[0] == rec[o]);
            assert(rest[0] == ',');
        }
        lemma_parse_field_of(rec, i, fs[0]);
        let jr = join_fields(fs.drop_first());
        assert(rec.subrange(o, o + rest.len() as int) == seq![','] + jr);
        assert(rec.subrange(o + 1, o + 1 + jr.len() as int) == jr) by {
            lemma_split_concat_chars(rec, o, seq![','], jr);
        }
        lemma_parse_join(rec, o + 1, fs.drop_first());
        assert(seq![fs[0]] + fs.drop_first() =~= fs);
    }
}

/// A written record reads back as the entry it was written from.
pub proof fn lemma_row_round_trip(e: EntryView)
    requires
        e.valid(),
    ensures
        spec_parse_record_line(row_line(e)) == Some(e),
{
    let rec = row_line(e);
    let fs = fields_of(e);
    assert(rec.subrange(0, rec.len() as int) =~= rec);
    lemma_parse_join(rec, 0, fs);
    assert(parse_line(rec) == Some(fs));
    crate::timestamp::lemma_rfc3339_round_trip(e.time_finished);
    crate::timestamp::lemma_rfc3339_round_trip(e.time_start);
    crate::text::lemma_dec_round_trip(e.result);
    crate::session::lemma_session_text_round_trip(e.session_id);
    let got = entry_from_fields(fs).unwrap();
    assert(got =~= e);
}

proof fn lemma_parse_lines_snoc(rs: Seq<Seq<char>>, r: Seq<char>)
    requires
        parse_lines(rs) is Some,
        spec_parse_record_line(r) is Some,
    ensures
        parse_lines(rs.push(r)) == Some(
            parse_lines(rs).unwrap().push(spec_parse_record_line(r).unwrap()),
        ),
    decreases rs.len(),
{
    if rs.len() == 0 {
        assert(rs.push(r).drop_first() =~= rs);
        assert(seq![spec_parse_record_line(r).unwrap()] + Seq::<EntryView>::empty()
            =~= Seq::<EntryView>::empty().push(spec_parse_record_line(r).unwrap()));
    } else {
        assert(rs.push(r)[0] == rs[0]);
        assert(rs.push(r).drop_first() =~= rs.drop_first().push(r));
        lemma_parse_lines_snoc(rs.drop_first(), r);
        let e0 = spec_parse_record_line(rs[0]).unwrap();
        let tail = parse_lines(rs.drop_first()).unwrap();
        let en = spec_parse_record_line(r).unwrap();
        assert(seq![e0] + tail.push(en) =~= (seq![e0] + tail).push(en));
    }
}

/// The header record written when a file is created.
pub open spec fn header_text() -> Seq<char> {
    "time_finished,time_start,hostname,command,pwd,result,session_id,user\n"@
}

/// The header forms one complete record of its own.
pub proof fn lemma_header_records()
    ensures
        complete(header_text()),
        records(header_text()).len() == 1,
{
    reveal_strlit("time_finished,time_start,hostname,command,pwd,result,session_id,user\n");
    let h = header_text();
    assert(h.len() == 69);
    let body = h.subrange(0, 68);
    assert(h =~= body + seq!['\n']);
    assert forall|i: int| 0 <= i < body.len() implies #[trigger] body[i] != '"' && body[i]
        != '\n' by {
        assert(body[i] == h[i]);
    }
    lemma_fold_plain((Seq::empty(), Seq::empty(), false), body);
    lemma_csv_fold_concat((Seq::empty(), Seq::empty(), false), body, seq!['\n']);
    lemma_csv_fold_one(csv_fold((Seq::empty(), Seq::empty(), false), body), '\n');
    assert(h[68] == '\n');
}

/// Writing one entry to an index file whose records are complete, then
/// reading the file back, yields the entries it held before plus that
/// entry, in order.
pub proof fn lemma_index_append(c: Seq<char>, e: EntryView)
    requires
        e.valid(),
        complete(c),
        records(c).len() >= 1,
        spec_parse_index(c) is Some,
    ensures
        complete(c + spec_row(e)),
        records(c + spec_row(e)).len() >= 1,
        spec_parse_index(c + spec_row(e)) == Some(spec_parse_index(c).unwrap().push(e)),
{
    lemma_records_append(c, e);
    lemma_row_round_trip(e);
    let rs = records(c);
    assert(all_records(c) == rs);
    assert(all_records(c + spec_row(e)) == rs.push(row_line(e)));
    assert(rs.push(row_line(e)).drop_first() =~= rs.drop_first().push(row_line(e)));
    lemma_parse_lines_snoc(rs.drop_first(), row_line(e));
}

/// A fresh index file: the header then one row reads back as exactly
/// that one entry.
pub proof fn lemma_index_fresh(e: EntryView)
    requires
        e.valid(),
    ensures
        complete(header_text() + spec_row(e)),
        spec_parse_index(header_text() + spec_row(e)) == Some(seq![e]),
{
    lemma_header_records();
    let h = header_text();
    assert(all_records(h) == records(h));
    assert(records(h).drop_first() =~= Seq::<Seq<char>>::empty());
    assert(spec_parse_index(h) == Some(Seq::<EntryView>::empty()));
    lemma_index_append(h, e);
    assert(Seq::<EntryView>::empty().push(e) =~= seq![e]);
}

proof fn lemma_escape_snoc(s: Seq<char>, c: char)
    ensures
        escape_inner(s.push(c)) == escape_inner(s) + (if c == '"' {
            seq!['"', '"']
        } else {
            seq![c]
        }),
    decreases s.len(),
{
    let tail = if c == '"' {
        seq!['"', '"']
    } else {
        seq![c]
    };
    if s.len() == 0 {
        assert(s.push(c)[0] == c);
        assert(s.push(c).drop_first() =~= s);
        assert(escape_inner(s.push(c)) =~= escape_inner(s) + tail);
    } else {
        assert(s.push(c)[0] == s[0]);
        assert(s.push(c).drop_first() =~= s.drop_first().push(c));
        lemma_escape_snoc(s.drop_first(), c);
        assert(escape_inner(s.push(c)) =~= escape_inner(s) + tail);
    }
}

fn scan_needs_quotes(f: &str) -> (r: bool)
    ensures
        r == needs_quotes(f@),
{
    let n = f.unicode_len();
    let mut i: usize = 0;
    while i < n
        invariant
            i <= n,
            n == f@.len(),
            forall|j: int|
                0 <= j < i ==> !(#[trigger] f@[j] == ',' || f@[j] == '"' || f@[j] == '\n'
                    || f@[j] == '\r'),
        decreases n - i,
    {
        let c = f.get_char(i);
        if c == ',' || c == '"' || c == '\n' || c == '\r' {
            assert(needs_quotes(f@));
            return true;
        }
        i += 1;
    }
    false
}

/// Appends one field, quoted exactly when it has to be.
fn push_enc_field(out: &mut String, f: &str)
    ensures
        final(out)@ == old(out)@ + enc_field(f@),
{
    let n = f.unicode_len();
    if !scan_needs_quotes(f) {
        let mut i: usize = 0;
        while i < n
            invariant
                i <= n,
                n == f@.len(),
                out@ == old(out)@ + f@.subrange(0, i as int),
            decreases n - i,
        {
            push_char(out, f.get_char(i));
            proof {
                assert(out@ =~= old(out)@ + f@.subrange(0, i + 1 as int));
            }
            i += 1;
        }
        proof {
            assert(f@.subrange(0, n as int) =~= f@);
        }
    } else {
        push_char(out, '"');
        let ghost base = out@;
        proof {
            assert(f@.subrange(0, 0) =~= Seq::<char>::empty());
            assert(base + escape_inner(f@.subrange(0, 0)) =~= base);
        }
        let mut i: usize = 0;
        while i < n
            invariant
                i <= n,
                n == f@.len(),
                out@ == base + escape_inner(f@.subrange(0, i as int)),
            decreases n - i,
        {
            let c = f.get_char(i);
            push_char(out, c);
            if c == '"' {
                push_char(out, '"');
            }
            proof {
                let pre = f@.subrange(0, i as int);
                assert(f@.subrange(0, i + 1 as int) =~= pre.push(f@[i as int]));
                lemma_escape_snoc(pre, f@[i as int]);
                assert(out@ =~= base + escape_inner(f@.subrange(0, i + 1 as int)));
            }
            i += 1;
        }
        push_char(out, '"');
        proof {
            assert(f@.subrange(0, n as int) =~= f@);
            assert(out@ =~= old(out)@ + enc_field(f@));
        }
    }
}

/// Appends the fields from `i` on, joined by commas.
fn push_join(out: &mut String, fields: &Vec<String>, i: usize)
    requires
        i < fields.len(),
    ensures
        final(out)@ == old(out)@ + join_fields(fields.deep_view().skip(i as int)),
    decreases fields.len() - i,
{
    let ghost fs = fields.deep_view().skip(i as int);
    proof {
        assert(fs[0] == fields.deep_view()[i as int]);
    }
    push_enc_field(out, fields[i].as_str());
    if i + 1 < fields.len() {
        push_char(out, ',');
        push_join(out, fields, i + 1);
        proof {
            assert(fs.drop_first() =~= fields.deep_view().skip(i + 1 as int));
            assert(out@ =~= old(out)@ + join_fields(fs));
        }
    } else {
        proof {
            assert(fs.len() == 1);
        }
    }
}

/// The line appended to the index for one entry, terminator included.
pub fn index_row(e: &Entry) -> (r: String)
    requires
        e@.valid(),
    ensures
        r@ == spec_row(e@),
{
    let mut fields: Vec<String> = Vec::new();
    fields.push(e.time_finished.to_rfc3339());
    fields.push(e.time_start.to_rfc3339());
    fields.push(e.hostname.clone());
    fields.push(e.command.clone());
    fields.push(e.pwd.clone());
    let mut dec = String::new();
    push_dec(&mut dec, e.result);
    fields.push(dec);
    fields.push(e.session_id.to_text());
    fields.push(e.user.clone());
    proof {
        assert(fields.deep_view() =~= fields_of(e@));
        assert(fields.deep_view().skip(0) =~= fields_of(e@));
    }
    let mut out = String::new();
    push_join(&mut out, &fields, 0);
    push_char(&mut out, '\n');
    proof {
        assert(out@ =~= spec_row(e@));
    }
    out
}

/// The header line a fresh index file starts with.
pub fn header_row() -> (r: String)
    ensures
        r@ == header_text(),
{
    let h = "time_finished,time_start,hostname,command,pwd,result,session_id,user\n";
    h.to_owned()
}

/// Splits a file into its records, the unfinished tail included.
pub fn split_records(content: &str) -> (r: Vec<String>)
    ensures
        r.deep_view() == all_records(content@),
{
    let n = content.unicode_len();
    let mut out: Vec<String> = Vec::new();
    let mut cur = String::new();
    let mut inq = false;
    let mut i: usize = 0;
    proof {
        assert(content@.subrange(0, 0) =~= Seq::<char>::empty());
    }
    while i < n
        invariant
            i <= n,
            n == content@.len(),
            split_all(content@.subrange(0, i as int)) == (out.deep_view(), cur@, inq),
        decreases n - i,
    {
        let c = content.get_char(i);
        let ghost pre = content@.subrange(0, i as int);
        proof {
            let pre2 = content@.subrange(0, i + 1 as int);
            assert(pre2.drop_last() =~= pre);
            assert(pre2.last() == content@[i as int]);
        }
        if c == '\n' && !inq {
            out.push(cur);
            cur = String::new();
            proof {
                assert(out.deep_view() =~= split_all(pre).0.push(split_all(pre).1));
            }
        } else {
            push_char(&mut cur, c);
            if c == '"' {
                inq = !inq;
            }
        }
        i += 1;
    }
    proof {
        assert(content@.subrange(0, n as int) =~= content@);
    }
    if cur.as_str().unicode_len() > 0 {
        out.push(cur);
        proof {
            assert(out.deep_view() =~= all_records(content@));
        }
    }
    out
}

/// How an unquoted field runs: up to the first comma, verbatim.
proof fn lemma_parse_raw_run(rec: Seq<char>, i: int)
    requires
        0 <= i <= rec.len(),
    ensures
        ({
            let r = parse_raw_f(rec, i);
            &&& i <= r.1 <= rec.len()
            &&& r.0 == rec.subrange(i, r.1)
            &&& r.1 == rec.len() || rec[r.1] == ','
            &&& forall|k: int| i <= k < r.1 ==> rec[k] != ','
        }),
    decreases rec.len() - i,
{
    if i == rec.len() {
        assert(rec.subrange(i, i) =~= Seq::<char>::empty());
    } else if rec[i] == ',' {
        assert(rec.subrange(i, i) =~= Seq::<char>::empty());
    } else {
        lemma_parse_raw_run(rec, i + 1);
        let r = parse_raw_f(rec, i + 1);
        assert(seq![rec[i]] + rec.subrange(i + 1, r.1) =~= rec.subrange(i, r.1));
    }
}

/// Reads one field starting at `i`.
fn read_field(rec: &str, i: usize) -> (r: Option<(String, usize)>)
    requires
        i <= rec@.len() <= usize::MAX,
    ensures
        r matches Some(p) ==> parse_field_f(rec@, i as int) matches Some(q) && p.0@ == q.0 && p.1
            as int == q.1 && i <= p.1 <= rec@.len(),
        r is None ==> parse_field_f(rec@, i as int) is None,
{
    let n = rec.unicode_len();
    if i < n && rec.get_char(i) == '"' {
        let mut out = String::new();
        let mut j = i + 1;
        proof {
            lemma_parse_quoted_bound(rec@, j as int);
            if parse_quoted_f(rec@, j as int) is Some {
                let q = parse_quoted_f(rec@, j as int).unwrap();
                assert(out@ + q.0 =~= q.0);
            }
        }
        loop
            invariant
                i < n,
                rec@[i as int] == '"',
                i + 1 <= j <= n,
                n == rec@.len() <= usize::MAX,
                (match parse_quoted_f(rec@, j as int) {
                    Some(q) => parse_quoted_f(rec@, i + 1 as int) == Some(
                        (out@ + q.0, q.1),
                    ) && q.1 <= rec@.len(),
                    None => parse_quoted_f(rec@, i + 1 as int) is None,
                }),
            decreases n - j,
        {
            proof {
                lemma_parse_quoted_bound(rec@, j as int);
            }
            if j >= n {
                return None;
            }
            let c = rec.get_char(j);
            if c == '"' {
                if j + 1 < n && rec.get_char(j + 1) == '"' {
                    push_char(&mut out, '"');
                    proof {
                        let q2 = parse_quoted_f(rec@, j + 2 as int);
                        if q2 is Some {
                            assert(out@ + q2.unwrap().0 =~= (out@.drop_last()) + (seq!['"']
                                + q2.unwrap().0));
                        }
                    }
                    j += 2;
                } else {
                    proof {
                        assert(parse_quoted_f(rec@, j as int) == Some(
                            (Seq::<char>::empty(), j + 1 as int),
                        ));
                        assert(out@ + Seq::<char>::empty() =~= out@);
                    }
                    return Some((out, j + 1));
                }
            } else {
                push_char(&mut out, c);
                proof {
                    let q2 = parse_quoted_f(rec@, j + 1 as int);
                    if q2 is Some {
                        assert(out@ + q2.unwrap().0 =~= (out@.drop_last()) + (seq![rec@[j as int]]
                            + q2.unwrap().0));
                    }
                }
                j += 1;
            }
        }
    } else {
        proof {
            lemma_parse_raw_run(rec@, i as int);
        }
        let mut j = i;
        while j < n && rec.get_char(j) != ','
            invariant
                i <= j <= n,
                n == rec@.len() <= usize::MAX,
                forall|k: int| i <= k < j ==> rec@[k] != ',',
            decreases n - j,
        {
            j += 1;
        }
        proof {
            let r = parse_raw_f(rec@, i as int);
            if r.1 < j {
                assert(rec@[r.1] != ',');
                assert(false);
            }
            if j < r.1 {
                assert(rec@[j as int] != ',');
                assert(false);
            }
        }
        Some((rec.substring_char(i, j).to_owned(), j))
    }
}

proof fn lemma_parse_quoted_bound(rec: Seq<char>, i: int)
    requires
        0 <= i,
    ensures
        parse_quoted_f(rec, i) matches Some(q) ==> i < q.1 <= rec.len(),
    decreases rec.len() - i,
{
    if 0 <= i < rec.len() {
        if rec[i] == '"' {
            if i + 1 < rec.len() && rec[i + 1] == '"' {
                lemma_parse_quoted_bound(rec, i + 2);
            }
        } else {
            lemma_parse_quoted_bound(rec, i + 1);
        }
    }
}

/// Reads one whole record into an entry.
pub fn parse_record_line(rec: &str) -> (r: Option<Entry>)
    ensures
        r matches Some(e) ==> spec_parse_record_line(rec@) == Some(e@),
        r is None ==> spec_parse_record_line(rec@) is None,
{
    let n = rec.unicode_len();
    let mut fields: Vec<String> = Vec::new();
    let mut i: usize = 0;
    let mut k: usize = 0;
    proof {
        if parse_fields_f(rec@, 0, 8) is Some {
            let q = parse_fields_f(rec@, 0, 8).unwrap();
            assert(fields.deep_view() + q.0 =~= q.0);
        }
    }
    while k < 8
        invariant
            k <= 8,
            i <= n,
            n == rec@.len() <= usize::MAX,
            fields.len() == k,
            k < 8 ==> (match parse_fields_f(rec@, i as int, 8 - k as int) {
                Some(q) => parse_fields_f(rec@, 0, 8) == Some(
                    (fields.deep_view() + q.0, q.1),
                ),
                None => parse_fields_f(rec@, 0, 8) is None,
            }),
            k == 8 ==> parse_fields_f(rec@, 0, 8) == Some((fields.deep_view(), i as int)),
        decreases 8 - k,
    {
        match read_field(rec, i) {
            None => {
                return None;
            },
            Some((f, j)) => {
                if k == 7 {
                    fields.push(f);
                    proof {
                        let q = parse_fields_f(rec@, i as int, 1);
                        assert(q == Some((seq![fields.deep_view()[7]], j as int)));
                        assert(fields.deep_view().drop_last() + seq![fields.deep_view()[7]]
                            =~= fields.deep_view());
                    }
                    i = j;
                } else {
                    if j < n && rec.get_char(j) == ',' {
                        fields.push(f);
                        proof {
                            let q2 = parse_fields_f(rec@, j + 1 as int, 8 - (k + 1) as int);
                            if q2 is Some {
                                assert(fields.deep_view().drop_last() + (seq![
                                    fields.deep_view()[k as int],
                                ] + q2.unwrap().0) =~= fields.deep_view() + q2.unwrap().0);
                            }
                        }
                        i = j + 1;
                    } else {
                        return None;
                    }
                }
                k += 1;
            },
        }
    }
    if i != n {
        return None;
    }
    let tf = match Timestamp::parse_rfc3339(fields[0].as_str()) {
        Some(t) => t,
        None => {
            return None;
        },
    };
    let ts = match Timestamp::parse_rfc3339(fields[1].as_str()) {
        Some(t) => t,
        None => {
            return None;
        },
    };
    let res = match parse_u16(fields[5].as_str()) {
        Some(v) => v,
        None => {
            return None;
        },
    };
    let sid = match SessionId::from_text(fields[6].as_str()) {
        Some(v) => v,
        None => {
            return None;
        },
    };
    let e = Entry {
        time_finished: tf,
        time_start: ts,
        hostname: fields[2].clone(),
        command: fields[3].clone(),
        pwd: fields[4].clone(),
        result: res,
        session_id: sid,
        user: fields[7].clone(),
    };
    proof {
        assert(e@ =~= entry_from_fields(fields.deep_view()).unwrap());
    }
    Some(e)
}

/// Reads a whole index file's entries; the first record is the header.
pub fn parse_index(content: &str) -> (r: Option<Vec<Entry>>)
    ensures
        r matches Some(v) ==> spec_parse_index(content@) == Some(v.deep_view()),
        r is None ==> spec_parse_index(content@) is None,
{
    let recs = split_records(content);
    let ghost rs = all_records(content@);
    if recs.len() == 0 {
        let empty: Vec<Entry> = Vec::new();
        proof {
            assert(empty.deep_view() =~= Seq::<EntryView>::empty());
        }
        return Some(empty);
    }
    let mut out: Vec<Entry> = Vec::new();
    let mut k: usize = 1;
    proof {
        assert(rs.drop_first() =~= rs.skip(1));
        if parse_lines(rs.skip(1)) is Some {
            let rest = parse_lines(rs.skip(1)).unwrap();
            assert(out.deep_view() + rest =~= rest);
        }
    }
    while k < recs.len()
        invariant
            1 <= k <= recs.len(),
            recs.deep_view() == rs,
            rs == all_records(content@),
            rs.len() == recs@.len(),
            rs.len() >= 1,
            (match parse_lines(rs.skip(k as int)) {
                Some(rest) => parse_lines(rs.drop_first()) == Some(out.deep_view() + rest),
                None => parse_lines(rs.drop_first()) is None,
            }),
        decreases recs.len() - k,
    {
        proof {
            assert(rs.skip(k as int)[0] == rs[k as int]);
            assert(rs.skip(k as int).drop_first() =~= rs.skip(k + 1 as int));
            assert(recs.deep_view()[k as int] == recs[k as int]@);
        }
        match parse_record_line(recs[k].as_str()) {
            None => {
                return None;
            },
            Some(e) => {
                out.push(e);
                proof {
                    let rest2 = parse_lines(rs.skip(k + 1 as int));
                    if rest2 is Some {
                        assert(out.deep_view().drop_last() + (seq![e@] + rest2.unwrap())
                            =~= out.deep_view() + rest2.unwrap());
                    }
                }
            },
        }
        k += 1;
    }
    proof {
        assert(rs.skip(recs.len() as int).len() == 0);
        assert(parse_lines(rs.skip(recs.len() as int)) == Some(Seq::<EntryView>::empty()));
        assert(out.deep_view() + Seq::<EntryView>::empty() =~= out.deep_view());
        assert(rs.drop_first() =~= rs.skip(1));
    }
    Some(out)
}

} // verus!
