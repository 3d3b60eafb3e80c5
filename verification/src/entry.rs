//! The durable record: one completed shell command, and the total order
//! the index keeps its records in.

use vstd::prelude::*;
use crate::message::{CommandStart, CommandStartView, CommandFinished, CommandFinishedView};
use crate::session::SessionId;
use crate::timestamp::Timestamp;
use crate::order::{
    lex_le_chars,
    lex_le_bytes,
    lemma_lex_chars_total,
    lemma_lex_chars_antisym,
    lemma_lex_chars_trans,
    lemma_lex_bytes_total,
    lemma_lex_bytes_antisym,
    lemma_lex_bytes_trans,
    str_le,
};
use crate::text::{is_space, space_char};
use vstd::string::StrSliceExecFns;

verus! {

/// One row of the per-host index, in the fixed field order the file
/// stores: time finished, time started, hostname, command, working
/// directory, result code, session id, user.
#[derive(Debug, Clone, PartialEq, Eq)]
pub struct Entry {
    pub time_finished: Timestamp,
    pub time_start: Timestamp,
    pub hostname: String,
    pub command: String,
    pub pwd: String,
    pub result: u16,
    pub session_id: SessionId,
    pub user: String,
}

#[verifier::ext_equal]
pub struct EntryView {
    pub time_finished: Timestamp,
    pub time_start: Timestamp,
    pub hostname: Seq<char>,
    pub command: Seq<char>,
    pub pwd: Seq<char>,
    pub result: u16,
    pub session_id: Seq<u8>,
    pub user: Seq<char>,
}

impl View for Entry {
    type V = EntryView;

    open spec fn view(&self) -> EntryView {
        EntryView {
            time_finished: self.time_finished,
            time_start: self.time_start,
            hostname: self.hostname@,
            command: self.command@,
            pwd: self.pwd@,
            result: self.result,
            session_id: self.session_id@,
            user: self.user@,
        }
    }
}

impl DeepView for Entry {
    type V = EntryView;

    open spec fn deep_view(&self) -> EntryView {
        self.view()
    }
}

impl EntryView {
    pub open spec fn valid(self) -> bool {
        self.time_finished.valid() && self.time_start.valid() && self.session_id.len() == 16
    }
}

/// The total order of the index: lexicographic on the fields in stored
/// order. Each step compares one field and falls through to the next on
/// equality.
pub open spec fn entry_le(a: EntryView, b: EntryView) -> bool {
    if a.time_finished != b.time_finished {
        a.time_finished.spec_le(b.time_finished)
    } else {
        cmp_from_start(a, b)
    }
}

pub open spec fn cmp_from_start(a: EntryView, b: EntryView) -> bool {
    if a.time_start != b.time_start {
        a.time_start.spec_le(b.time_start)
    } else {
        cmp_from_host(a, b)
    }
}

pub open spec fn cmp_from_host(a: EntryView, b: EntryView) -> bool {
    if a.hostname != b.hostname {
        lex_le_chars(a.hostname, b.hostname)
    } else {
        cmp_from_command(a, b)
    }
}

pub open spec fn cmp_from_command(a: EntryView, b: EntryView) -> bool {
    if a.command != b.command {
        lex_le_chars(a.command, b.command)
    } else {
        cmp_from_pwd(a, b)
    }
}

pub open spec fn cmp_from_pwd(a: EntryView, b: EntryView) -> bool {
    if a.pwd != b.pwd {
        lex_le_chars(a.pwd, b.pwd)
    } else {
        cmp_from_result(a, b)
    }
}

pub open spec fn cmp_from_result(a: EntryView, b: EntryView) -> bool {
    if a.result != b.result {
        a.result < b.result
    } else {
        cmp_from_session(a, b)
    }
}

pub open spec fn cmp_from_session(a: EntryView, b: EntryView) -> bool {
    if a.session_id != b.session_id {
        lex_le_bytes(a.session_id, b.session_id)
    } else {
        lex_le_chars(a.user, b.user)
    }
}

/// Any two entries compare.
pub proof fn lemma_entry_le_total(a: EntryView, b: EntryView)
    ensures
        entry_le(a, b) || entry_le(b, a),
{
    lemma_lex_chars_total(a.hostname, b.hostname);
    lemma_lex_chars_total(a.command, b.command);
    lemma_lex_chars_total(a.pwd, b.pwd);
    lemma_lex_bytes_total(a.session_id, b.session_id);
    lemma_lex_chars_total(a.user, b.user);
}

/// Entries that compare both ways are the same record.
pub proof fn lemma_entry_le_antisym(a: EntryView, b: EntryView)
    requires
        entry_le(a, b),
        entry_le(b, a),
    ensures
        a == b,
{
    if a.hostname != b.hostname {
        lemma_lex_chars_antisym(a.hostname, b.hostname);
    }
    if a.command != b.command {
        lemma_lex_chars_antisym(a.command, b.command);
    }
    if a.pwd != b.pwd {
        lemma_lex_chars_antisym(a.pwd, b.pwd);
    }
    if a.session_id != b.session_id {
        lemma_lex_bytes_antisym(a.session_id, b.session_id);
    }
    if a.time_finished == b.time_finished && a.time_start == b.time_start && a.hostname
        == b.hostname && a.command == b.command && a.pwd == b.pwd && a.result == b.result
        && a.session_id == b.session_id {
        lemma_lex_chars_antisym(a.user, b.user);
    }
    assert(a =~= b);
}

proof fn lemma_cmp_from_session_trans(a: EntryView, b: EntryView, c: EntryView)
    requires
        cmp_from_session(a, b),
        cmp_from_session(b, c),
    ensures
        cmp_from_session(a, c),
{
    if a.session_id != b.session_id {
        if b.session_id != c.session_id {
            lemma_lex_bytes_trans(a.session_id, b.session_id, c.session_id);
            if a.session_id == c.session_id {
                lemma_lex_bytes_antisym(a.session_id, b.session_id);
            }
        }
    } else {
        if b.session_id == c.session_id {
            lemma_lex_chars_trans(a.user, b.user, c.user);
        }
    }
}

proof fn lemma_cmp_from_result_trans(a: EntryView, b: EntryView, c: EntryView)
    requires
        cmp_from_result(a, b),
        cmp_from_result(b, c),
    ensures
        cmp_from_result(a, c),
{
    if a.result == b.result && b.result == c.result {
        lemma_cmp_from_session_trans(a, b, c);
    }
}

proof fn lemma_cmp_from_pwd_trans(a: EntryView, b: EntryView, c: EntryView)
    requires
        cmp_from_pwd(a, b),
        cmp_from_pwd(b, c),
    ensures
        cmp_from_pwd(a, c),
{
    if a.pwd != b.pwd {
        if b.pwd != c.pwd {
            lemma_lex_chars_trans(a.pwd, b.pwd, c.pwd);
            if a.pwd == c.pwd {
                lemma_lex_chars_antisym(a.pwd, b.pwd);
            }
        }
    } else {
        if b.pwd == c.pwd {
            lemma_cmp_from_result_trans(a, b, c);
        }
    }
}

proof fn lemma_cmp_from_command_trans(a: EntryView, b: EntryView, c: EntryView)
    requires
        cmp_from_command(a, b),
        cmp_from_command(b, c),
    ensures
        cmp_from_command(a, c),
{
    if a.command != b.command {
        if b.command != c.command {
            lemma_lex_chars_trans(a.command, b.command, c.command);
            if a.command == c.command {
                lemma_lex_chars_antisym(a.command, b.command);
            }
        }
    } else {
        if b.command == c.command {
            lemma_cmp_from_pwd_trans(a, b, c);
        }
    }
}

proof fn lemma_cmp_from_host_trans(a: EntryView, b: EntryView, c: EntryView)
    requires
        cmp_from_host(a, b),
        cmp_from_host(b, c),
    ensures
        cmp_from_host(a, c),
{
    if a.hostname != b.hostname {
        if b.hostname != c.hostname {
            lemma_lex_chars_trans(a.hostname, b.hostname, c.hostname);
            if a.hostname == c.hostname {
                lemma_lex_chars_antisym(a.hostname, b.hostname);
            }
        }
    } else {
        if b.hostname == c.hostname {
            lemma_cmp_from_command_trans(a, b, c);
        }
    }
}

/// The order composes.
pub proof fn lemma_entry_le_trans(a: EntryView, b: EntryView, c: EntryView)
    requires
        entry_le(a, b),
        entry_le(b, c),
    ensures
        entry_le(a, c),
{
    if a.time_finished == b.time_finished && b.time_finished == c.time_finished {
        if a.time_start == b.time_start && b.time_start == c.time_start {
            lemma_cmp_from_host_trans(a, b, c);
        }
    }
}

impl Entry {
    /// A field-by-field copy whose view is the same record.
    pub fn duplicate(&self) -> (r: Entry)
        ensures
            r@ == self@,
    {
        Entry {
            time_finished: self.time_finished,
            time_start: self.time_start,
            hostname: self.hostname.clone(),
            command: self.command.clone(),
            pwd: self.pwd.clone(),
            result: self.result,
            session_id: self.session_id,
            user: self.user.clone(),
        }
    }

    /// Comparison in the index's total order.
    pub fn le(&self, other: &Entry) -> (r: bool)
        ensures
            r == entry_le(self@, other@),
    {
        if self.time_finished != other.time_finished {
            self.time_finished.le(&other.time_finished)
        } else if self.time_start != other.time_start {
            self.time_start.le(&other.time_start)
        } else if !string_eq(&self.hostname, &other.hostname) {
            str_le(self.hostname.as_str(), other.hostname.as_str())
        } else if !string_eq(&self.command, &other.command) {
            str_le(self.command.as_str(), other.command.as_str())
        } else if !string_eq(&self.pwd, &other.pwd) {
            str_le(self.pwd.as_str(), other.pwd.as_str())
        } else if self.result != other.result {
            self.result < other.result
        } else if !self.session_id.same(&other.session_id) {
            sid_le(&self.session_id, &other.session_id)
        } else {
            str_le(self.user.as_str(), other.user.as_str())
        }
    }
}

fn string_eq(a: &String, b: &String) -> (r: bool)
    ensures
        r == (a@ == b@),
{
    a.eq(b)
}

fn sid_le(a: &SessionId, b: &SessionId) -> (r: bool)
    ensures
        r == lex_le_bytes(a@, b@),
{
    let mut i: usize = 0;
    while i < 16
        invariant
            i <= 16,
            a@.len() == 16,
            b@.len() == 16,
            forall|j: int| 0 <= j < i ==> a@[j] == b@[j],
        decreases 16 - i,
    {
        proof {
            crate::order::lemma_lex_bytes_skip(a@, b@, i as int);
        }
        let ca = a.bytes[i];
        let cb = b.bytes[i];
        if ca != cb {
            proof {
                assert(a@.skip(i as int)[0] == a@[i as int]);
                assert(b@.skip(i as int)[0] == b@[i as int]);
            }
            return ca < cb;
        }
        i += 1;
    }
    proof {
        crate::order::lemma_lex_bytes_skip(a@, b@, 16);
        assert(a@.skip(16).len() == 0);
    }
    true
}

/// Text with its trailing whitespace removed.
pub open spec fn spec_trim_end(s: Seq<char>) -> Seq<char>
    decreases s.len(),
{
    if s.len() == 0 {
        s
    } else if is_space(s.last()) {
        spec_trim_end(s.drop_last())
    } else {
        s
    }
}

/// Text with its leading whitespace removed.
pub open spec fn spec_trim_start(s: Seq<char>) -> Seq<char>
    decreases s.len(),
{
    if s.len() == 0 {
        s
    } else if is_space(s[0]) {
        spec_trim_start(s.drop_first())
    } else {
        s
    }
}

/// Text with surrounding whitespace removed.
pub open spec fn spec_trim(s: Seq<char>) -> Seq<char> {
    spec_trim_start(spec_trim_end(s))
}

/// What a recorded command looks like: trailing whitespace goes, and
/// then one trailing escaped line break (a literal backslash-r
/// backslash-n, or a literal backslash-n) goes too.
pub open spec fn spec_clean_command(s: Seq<char>) -> Seq<char> {
    let t = spec_trim_end(s);
    if t.len() >= 4 && t.subrange(t.len() - 4, t.len() as int) == seq!['\\', 'r', '\\', 'n'] {
        t.subrange(0, t.len() - 4)
    } else if t.len() >= 2 && t.subrange(t.len() - 2, t.len() as int) == seq!['\\', 'n'] {
        t.subrange(0, t.len() - 2)
    } else {
        t
    }
}

/// The entry a matched start/finish pair produces.
pub open spec fn spec_entry_of(s: CommandStartView, f: CommandFinishedView) -> EntryView {
    EntryView {
        time_finished: f.time_stamp,
        time_start: s.time_stamp,
        hostname: spec_trim(s.hostname),
        command: spec_clean_command(s.command),
        pwd: s.pwd,
        result: f.result,
        session_id: s.session_id,
        user: spec_trim(s.user),
    }
}

/// Index of the first character after the trailing whitespace.
fn trim_end_index(s: &str) -> (k: usize)
    ensures
        k <= s@.len(),
        s@.subrange(0, k as int) == spec_trim_end(s@),
{
    let n = s.unicode_len();
    let mut k = n;
    proof {
        assert(s@.subrange(0, n as int) =~= s@);
    }
    while k > 0 && space_char(s.get_char(k - 1))
        invariant
            k <= n,
            n == s@.len(),
            spec_trim_end(s@.subrange(0, k as int)) == spec_trim_end(s@),
        decreases k,
    {
        proof {
            let pre = s@.subrange(0, k as int);
            assert(pre.last() == s@[k - 1]);
            assert(pre.drop_last() =~= s@.subrange(0, k - 1));
        }
        k -= 1;
    }
    proof {
        let pre = s@.subrange(0, k as int);
        if k == 0 {
            assert(spec_trim_end(pre) =~= pre);
        } else {
            assert(pre.last() == s@[k - 1]);
            assert(spec_trim_end(pre) == pre);
        }
    }
    k
}

/// Trailing whitespace removed.
pub fn trim_end_str(s: &str) -> (r: String)
    ensures
        r@ == spec_trim_end(s@),
{
    let k = trim_end_index(s);
    s.substring_char(0, k).to_owned()
}

/// Surrounding whitespace removed.
pub fn trim_str(s: &str) -> (r: String)
    ensures
        r@ == spec_trim(s@),
{
    let k = trim_end_index(s);
    let ghost t = spec_trim_end(s@);
    let mut j: usize = 0;
    while j < k && space_char(s.get_char(j))
        invariant
            j <= k <= s@.len(),
            s@.subrange(0, k as int) == t,
            spec_trim_start(s@.subrange(j as int, k as int)) == spec_trim_start(t),
        decreases k - j,
    {
        proof {
            let cur = s@.subrange(j as int, k as int);
            assert(cur[0] == s@[j as int]);
            assert(cur.drop_first() =~= s@.subrange(j + 1 as int, k as int));
        }
        j += 1;
    }
    proof {
        let cur = s@.subrange(j as int, k as int);
        if j == k {
            assert(spec_trim_start(cur) =~= cur);
        } else {
            assert(cur[0] == s@[j as int]);
            assert(spec_trim_start(cur) == cur);
        }
    }
    s.substring_char(j, k).to_owned()
}

/// The cleaned command text (see [`spec_clean_command`]).
pub fn clean_command(s: &str) -> (r: String)
    ensures
        r@ == spec_clean_command(s@),
{
    let k = trim_end_index(s);
    let ghost t = spec_trim_end(s@);
    if k >= 4 && s.get_char(k - 4) == '\\' && s.get_char(k - 3) == 'r' && s.get_char(k - 2) == '\\'
        && s.get_char(k - 1) == 'n' {
        proof {
            assert(t.subrange(t.len() - 4, t.len() as int) =~= seq!['\\', 'r', '\\', 'n']);
            assert(s@.subrange(0, k - 4 as int) =~= t.subrange(0, t.len() - 4));
        }
        s.substring_char(0, k - 4).to_owned()
    } else if k >= 2 && s.get_char(k - 2) == '\\' && s.get_char(k - 1) == 'n' {
        proof {
            assert(t.subrange(t.len() - 2, t.len() as int) =~= seq!['\\', 'n']);
            if t.len() >= 4 {
                assert(t[t.len() - 4] == s@[k - 4]);
                assert(t[t.len() - 3] == s@[k - 3]);
                assert(t.subrange(t.len() - 4, t.len() as int) != seq!['\\', 'r', '\\', 'n']) by {
                    if t.subrange(t.len() - 4, t.len() as int) == seq!['\\', 'r', '\\', 'n'] {
                        assert(t.subrange(t.len() - 4, t.len() as int)[0] == '\\');
                        assert(t.subrange(t.len() - 4, t.len() as int)[1] == 'r');
                        assert(false);
                    }
                }
            }
            assert(s@.subrange(0, k - 2 as int) =~= t.subrange(0, t.len() - 2));
        }
        s.substring_char(0, k - 2).to_owned()
    } else {
        proof {
            if t.len() >= 4 && t.subrange(t.len() - 4, t.len() as int) == seq![
                '\\',
                'r',
                '\\',
                'n',
            ] {
                assert(t[t.len() - 4] == s@[k - 4] && t[t.len() - 3] == s@[k - 3] && t[t.len() - 2]
                    == s@[k - 2] && t[t.len() - 1] == s@[k - 1]);
                assert(t.subrange(t.len() - 4, t.len() as int)[0] == '\\');
                assert(t.subrange(t.len() - 4, t.len() as int)[1] == 'r');
                assert(t.subrange(t.len() - 4, t.len() as int)[2] == '\\');
                assert(t.subrange(t.len() - 4, t.len() as int)[3] == 'n');
                assert(false);
            }
            if t.len() >= 2 && t.subrange(t.len() - 2, t.len() as int) == seq!['\\', 'n'] {
                assert(t[t.len() - 2] == s@[k - 2] && t[t.len() - 1] == s@[k - 1]);
                assert(t.subrange(t.len() - 2, t.len() as int)[0] == '\\');
                assert(t.subrange(t.len() - 2, t.len() as int)[1] == 'n');
                assert(false);
            }
        }
        s.substring_char(0, k).to_owned()
    }
}

impl Entry {
    /// Builds the durable record from a matched start/finish pair:
    /// the command is cleaned, user and hostname are trimmed, times,
    /// working directory, result and session id carry over.
    pub fn from_messages(start: CommandStart, finish: &CommandFinished) -> (r: Entry)
        ensures
            r@ == spec_entry_of(start@, finish@),
    {
        let command = clean_command(start.command.as_str());
        let user = trim_str(start.user.as_str());
        let hostname = trim_str(start.hostname.as_str());
        let r = Entry {
            time_finished: finish.time_stamp,
            time_start: start.time_stamp,
            hostname,
            command,
            pwd: start.pwd,
            result: finish.result,
            session_id: start.session_id,
            user,
        };
        proof {
            assert(r@ =~= spec_entry_of(start@, finish@));
        }
        r
    }
}

} // verus!
