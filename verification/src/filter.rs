//! The query filter: a plain record of options, each one a predicate on
//! entries; filtering keeps the sort order and `count` keeps the last N.

use vstd::prelude::*;
use crate::entry::{Entry, EntryView, spec_trim_start};
use crate::session::spec_session_text;
use crate::text::{is_space, space_char};
use vstd::string::StrSliceExecFns;

verus! {

#[verifier::external_type_specification]
#[verifier::external_body]
pub struct ExRegex(regex::Regex);

/// Whether a regular expression, given by its pattern text, matches
/// somewhere in the haystack. The result depends on the pattern and the
/// haystack alone.
pub uninterp spec fn regex_match_of(pattern: Seq<char>, hay: Seq<char>) -> bool;

/// A compiled regular expression that remembers its pattern text.
#[derive(Debug)]
pub struct Pattern {
    pattern: String,
    re: regex::Regex,
}

impl View for Pattern {
    type V = Seq<char>;

    closed spec fn view(&self) -> Seq<char> {
        self.pattern@
    }
}

impl Pattern {
    /// Relies on regex::Regex::new: compiles the pattern, failing on
    /// invalid syntax.
    #[verifier::external_body]
    pub fn compile(pattern: &str) -> (r: Option<Pattern>)
        ensures
            r matches Some(p) ==> p@ == pattern@,
    {
        match regex::Regex::new(pattern) {
            Ok(re) => Some(Pattern { pattern: pattern.to_string(), re }),
            Err(_) => None,
        }
    }

    /// Relies on regex::Regex::is_match: whether the pattern matches
    /// anywhere in the haystack.
    #[verifier::external_body]
    pub fn matches(&self, hay: &str) -> (r: bool)
        ensures
            r == regex_match_of(self@, hay@),
    {
        self.re.is_match(hay)
    }
}

/// The recognized query options. `None` fields filter nothing.
#[derive(Debug)]
pub struct Filter {
    pub hostname: Option<String>,
    pub directory: Option<String>,
    pub command: Option<String>,
    pub no_subdirs: bool,
    pub command_text: Option<Pattern>,
    pub command_text_excluded: Option<Pattern>,
    pub count: usize,
    pub session: Option<Pattern>,
    pub failed: bool,
    pub find_status: Option<u16>,
}

pub struct FilterView {
    pub hostname: Option<Seq<char>>,
    pub directory: Option<Seq<char>>,
    pub command: Option<Seq<char>>,
    pub no_subdirs: bool,
    pub command_text: Option<Seq<char>>,
    pub command_text_excluded: Option<Seq<char>>,
    pub count: usize,
    pub session: Option<Seq<char>>,
    pub failed: bool,
    pub find_status: Option<u16>,
}

impl View for Filter {
    type V = FilterView;

    open spec fn view(&self) -> FilterView {
        FilterView {
            hostname: match self.hostname {
                Some(ref h) => Some(h@),
                None => None,
            },
            directory: match self.directory {
                Some(ref d) => Some(d@),
                None => None,
            },
            command: match self.command {
                Some(ref c) => Some(c@),
                None => None,
            },
            no_subdirs: self.no_subdirs,
            command_text: match self.command_text {
                Some(ref p) => Some(p@),
                None => None,
            },
            command_text_excluded: match self.command_text_excluded {
                Some(ref p) => Some(p@),
                None => None,
            },
            count: self.count,
            session: match self.session {
                Some(ref p) => Some(p@),
                None => None,
            },
            failed: self.failed,
            find_status: self.find_status,
        }
    }
}

impl Default for Filter {
    /// The empty filter: keeps everything, unlimited count.
    fn default() -> (r: Filter)
        ensures
            r@.hostname is None,
            r@.directory is None,
            r@.command is None,
            !r@.no_subdirs,
            r@.command_text is None,
            r@.command_text_excluded is None,
            r@.count == 0,
            r@.session is None,
            !r@.failed,
            r@.find_status is None,
    {
        Filter {
            hostname: None,
            directory: None,
            command: None,
            no_subdirs: false,
            command_text: None,
            command_text_excluded: None,
            count: 0,
            session: None,
            failed: false,
            find_status: None,
        }
    }
}

/// The segment of text before the first pipe character.
pub open spec fn take_until_pipe(s: Seq<char>) -> Seq<char>
    decreases s.len(),
{
    if s.len() == 0 || s[0] == '|' {
        Seq::empty()
    } else {
        seq![s[0]] + take_until_pipe(s.drop_first())
    }
}

/// The first whitespace-delimited token of a text, empty when there is
/// none.
pub open spec fn first_token(s: Seq<char>) -> Seq<char> {
    take_until_space(spec_trim_start(s))
}

pub open spec fn take_until_space(s: Seq<char>) -> Seq<char>
    decreases s.len(),
{
    if s.len() == 0 || is_space(s[0]) {
        Seq::empty()
    } else {
        seq![s[0]] + take_until_space(s.drop_first())
    }
}

/// The pipe-split command rule: the command matches when some pipeline
/// segment's first token equals it.
pub open spec fn spec_filter_command(cmd: Seq<char>, target: Seq<char>) -> bool
    decreases cmd.len(),
    via spec_filter_command_dec
{
    let seg = take_until_pipe(cmd);
    let tok = first_token(seg);
    if tok.len() > 0 && tok == target {
        true
    } else if seg.len() == cmd.len() {
        false
    } else {
        spec_filter_command(cmd.subrange(seg.len() as int + 1, cmd.len() as int), target)
    }
}

#[via_fn]
proof fn spec_filter_command_dec(cmd: Seq<char>, target: Seq<char>) {
    lemma_take_until_pipe_len(cmd);
}

pub proof fn lemma_take_until_pipe_len(s: Seq<char>)
    ensures
        take_until_pipe(s).len() <= s.len(),
    decreases s.len(),
{
    if s.len() > 0 && s[0] != '|' {
        lemma_take_until_pipe_len(s.drop_first());
    }
}

/// Whether the filter keeps one entry; the hostname option acts earlier,
/// when files are chosen, not here.
pub open spec fn spec_keep(f: FilterView, e: EntryView) -> bool {
    &&& (f.command matches Some(c) ==> spec_filter_command(e.command, c))
    &&& (f.directory matches Some(d) ==> if f.no_subdirs {
        e.pwd == d
    } else {
        spec_path_starts_with(e.pwd, d)
    })
    &&& (f.command_text matches Some(p) ==> regex_match_of(p, e.command))
    &&& (f.command_text_excluded matches Some(p) ==> !regex_match_of(p, e.command))
    &&& (f.session matches Some(p) ==> regex_match_of(p, spec_session_text(e.session_id)))
    &&& (f.failed ==> e.result == 0)
    &&& (f.find_status matches Some(v) ==> e.result == v)
}

/// The non-empty segments of a path, split on the separator.
pub open spec fn path_parts(s: Seq<char>) -> Seq<Seq<char>>
    decreases s.len(),
    via path_parts_dec
{
    let seg = take_until_slash(s);
    let head: Seq<Seq<char>> = if seg.len() > 0 {
        seq![seg]
    } else {
        Seq::empty()
    };
    if seg.len() == s.len() {
        head
    } else {
        head + path_parts(s.subrange(seg.len() as int + 1, s.len() as int))
    }
}

#[via_fn]
proof fn path_parts_dec(s: Seq<char>) {
    lemma_take_until_slash_len(s);
}

pub proof fn lemma_take_until_slash_len(s: Seq<char>)
    ensures
        take_until_slash(s).len() <= s.len(),
    decreases s.len(),
{
    if s.len() > 0 && s[0] != '/' {
        lemma_take_until_slash_len(s.drop_first());
    }
}

pub open spec fn take_until_slash(s: Seq<char>) -> Seq<char>
    decreases s.len(),
{
    if s.len() == 0 || s[0] == '/' {
        Seq::empty()
    } else {
        seq![s[0]] + take_until_slash(s.drop_first())
    }
}

/// Whether a path names its root: component-wise, an absolute path
/// never extends a relative one, nor the reverse.
pub open spec fn is_abs_path(s: Seq<char>) -> bool {
    s.len() > 0 && s[0] == '/'
}

/// Component-wise path prefix: the empty path heads everything;
/// otherwise both paths must agree on being absolute and every segment
/// of `d` heads `p`'s segments, so `/tmp` covers `/tmp/x` but neither
/// `/tmpx` nor a relative `tmp/x`.
pub open spec fn spec_path_starts_with(p: Seq<char>, d: Seq<char>) -> bool {
    if d.len() == 0 {
        true
    } else {
        is_abs_path(p) == is_abs_path(d) && path_parts(d).is_prefix_of(path_parts(p))
    }
}

proof fn lemma_take_until_pipe_at(s: Seq<char>, j: int)
    requires
        0 <= j <= s.len(),
        forall|k: int| 0 <= k < j ==> s[k] != '|',
        j == s.len() || s[j] == '|',
    ensures
        take_until_pipe(s) == s.subrange(0, j),
    decreases j,
{
    if j == 0 {
        assert(s.subrange(0, 0) =~= Seq::<char>::empty());
    } else {
        assert(s[0] != '|');
        let s2 = s.drop_first();
        assert(forall|k: int| 0 <= k < j - 1 ==> #[trigger] s2[k] == s[k + 1]);
        lemma_take_until_pipe_at(s2, j - 1);
        assert(seq![s[0]] + s2.subrange(0, j - 1) =~= s.subrange(0, j));
    }
}

proof fn lemma_take_until_slash_at(s: Seq<char>, j: int)
    requires
        0 <= j <= s.len(),
        forall|k: int| 0 <= k < j ==> s[k] != '/',
        j == s.len() || s[j] == '/',
    ensures
        take_until_slash(s) == s.subrange(0, j),
    decreases j,
{
    if j == 0 {
        assert(s.subrange(0, 0) =~= Seq::<char>::empty());
    } else {
        assert(s[0] != '/');
        let s2 = s.drop_first();
        assert(forall|k: int| 0 <= k < j - 1 ==> #[trigger] s2[k] == s[k + 1]);
        lemma_take_until_slash_at(s2, j - 1);
        assert(seq![s[0]] + s2.subrange(0, j - 1) =~= s.subrange(0, j));
    }
}

proof fn lemma_take_until_space_at(s: Seq<char>, j: int)
    requires
        0 <= j <= s.len(),
        forall|k: int| 0 <= k < j ==> !is_space(#[trigger] s[k]),
        j == s.len() || is_space(s[j]),
    ensures
        take_until_space(s) == s.subrange(0, j),
    decreases j,
{
    if j == 0 {
        assert(s.subrange(0, 0) =~= Seq::<char>::empty());
    } else {
        assert(!is_space(s[0]));
        let s2 = s.drop_first();
        assert(forall|k: int| 0 <= k < j - 1 ==> #[trigger] s2[k] == s[k + 1]);
        lemma_take_until_space_at(s2, j - 1);
        assert(seq![s[0]] + s2.subrange(0, j - 1) =~= s.subrange(0, j));
    }
}

proof fn lemma_trim_start_at(s: Seq<char>, a: int)
    requires
        0 <= a <= s.len(),
        forall|k: int| 0 <= k < a ==> is_space(#[trigger] s[k]),
        a == s.len() || !is_space(s[a]),
    ensures
        spec_trim_start(s) == s.skip(a),
    decreases a,
{
    if a == 0 {
        assert(s.skip(0) =~= s);
    } else {
        assert(is_space(s[0]));
        let s2 = s.drop_first();
        assert(forall|k: int| 0 <= k < a - 1 ==> #[trigger] s2[k] == s[k + 1]);
        lemma_trim_start_at(s2, a - 1);
        assert(s2.skip(a - 1) =~= s.skip(a));
    }
}

/// Text equality on string slices.
pub fn str_eq(a: &str, b: &str) -> (r: bool)
    ensures
        r == (a@ == b@),
{
    let x = a.to_owned();
    let y = b.to_owned();
    x.eq(&y)
}

/// The pipe-split command rule (see [`spec_filter_command`]): split the
/// command on pipes; the filter matches when some segment's first token
/// equals it.
pub fn filter_command(entry_command: &str, command: &str) -> (r: bool)
    ensures
        r == spec_filter_command(entry_command@, command@),
    decreases entry_command@.len(),
{
    let s = entry_command;
    let n = s.unicode_len();
    let mut j: usize = 0;
    while j < n && s.get_char(j) != '|'
        invariant
            j <= n,
            n == s@.len(),
            forall|k: int| 0 <= k < j ==> s@[k] != '|',
        decreases n - j,
    {
        j += 1;
    }
    proof {
        lemma_take_until_pipe_at(s@, j as int);
    }
    let mut a: usize = 0;
    while a < j && space_char(s.get_char(a))
        invariant
            a <= j <= n,
            n == s@.len(),
            forall|k: int| 0 <= k < a ==> is_space(#[trigger] s@[k]),
        decreases j - a,
    {
        a += 1;
    }
    let mut b: usize = a;
    while b < j && !space_char(s.get_char(b))
        invariant
            a <= b <= j <= n,
            n == s@.len(),
            forall|k: int| a <= k < b ==> !is_space(#[trigger] s@[k]),
        decreases j - b,
    {
        b += 1;
    }
    proof {
        let seg = s@.subrange(0, j as int);
        assert(forall|k: int| 0 <= k < a ==> #[trigger] seg[k] == s@[k]);
        assert(a == seg.len() || !is_space(seg[a as int]));
        lemma_trim_start_at(seg, a as int);
        let tail = seg.skip(a as int);
        assert(forall|k: int| 0 <= k < b - a ==> #[trigger] tail[k] == s@[a + k]);
        assert(b - a == tail.len() || is_space(tail[b - a]));
        lemma_take_until_space_at(tail, b - a);
        assert(tail.subrange(0, b - a) =~= s@.subrange(a as int, b as int));
        assert(first_token(seg) == s@.subrange(a as int, b as int));
    }
    if b > a && str_eq(s.substring_char(a, b), command) {
        return true;
    }
    if j == n {
        return false;
    }
    let rest = s.substring_char(j + 1, n);
    let r = filter_command(rest, command);
    proof {
        assert(rest@ =~= s@.subrange(j + 1 as int, n as int));
    }
    r
}

/// The non-empty path segments, in order.
fn path_parts_vec(s: &str) -> (r: Vec<String>)
    ensures
        r.deep_view() == path_parts(s@),
    decreases s@.len(),
{
    let n = s.unicode_len();
    let mut j: usize = 0;
    while j < n && s.get_char(j) != '/'
        invariant
            j <= n,
            n == s@.len(),
            forall|k: int| 0 <= k < j ==> s@[k] != '/',
        decreases n - j,
    {
        j += 1;
    }
    proof {
        lemma_take_until_slash_at(s@, j as int);
    }
    if j == n {
        let mut v: Vec<String> = Vec::new();
        if j > 0 {
            v.push(s.substring_char(0, j).to_owned());
        }
        proof {
            assert(v.deep_view() =~= path_parts(s@));
        }
        v
    } else {
        let rest = s.substring_char(j + 1, n);
        proof {
            assert(rest@ =~= s@.subrange(j + 1 as int, n as int));
        }
        let mut v = path_parts_vec(rest);
        if j > 0 {
            v.insert(0, s.substring_char(0, j).to_owned());
        }
        proof {
            assert(v.deep_view() =~= path_parts(s@));
        }
        v
    }
}

/// Component-wise path prefix test (see [`spec_path_starts_with`]).
pub fn path_starts_with(p: &str, d: &str) -> (r: bool)
    ensures
        r == spec_path_starts_with(p@, d@),
{
    let dn = d.unicode_len();
    if dn == 0 {
        return true;
    }
    let p_abs = p.unicode_len() > 0 && p.get_char(0) == '/';
    let d_abs = d.get_char(0) == '/';
    if p_abs != d_abs {
        return false;
    }
    let pp = path_parts_vec(p);
    let dp = path_parts_vec(d);
    if dp.len() > pp.len() {
        return false;
    }
    let mut i: usize = 0;
    while i < dp.len()
        invariant
            i <= dp.len() <= pp.len(),
            pp.deep_view() == path_parts(p@),
            dp.deep_view() == path_parts(d@),
            forall|k: int| 0 <= k < i ==> dp.deep_view()[k] == pp.deep_view()[k],
        decreases dp.len() - i,
    {
        if !str_eq(dp[i].as_str(), pp[i].as_str()) {
            proof {
                assert(dp.deep_view()[i as int] != pp.deep_view()[i as int]);
                assert(!path_parts(d@).is_prefix_of(path_parts(p@))) by {
                    if path_parts(d@).is_prefix_of(path_parts(p@)) {
                        assert(path_parts(d@) =~= path_parts(p@).subrange(
                            0,
                            path_parts(d@).len() as int,
                        ));
                        assert(path_parts(d@)[i as int] == path_parts(p@)[i as int]);
                    }
                }
            }
            return false;
        }
        i += 1;
    }
    proof {
        assert(path_parts(d@) =~= path_parts(p@).subrange(0, path_parts(d@).len() as int));
    }
    true
}

/// The entries a filter keeps, order preserved.
pub open spec fn kept(f: FilterView, s: Seq<EntryView>) -> Seq<EntryView> {
    s.filter(|ev: EntryView| spec_keep(f, ev))
}

/// The last `count` elements, all of them when `count` is zero.
pub open spec fn apply_count(s: Seq<EntryView>, count: usize) -> Seq<EntryView> {
    if count == 0 || s.len() <= count {
        s
    } else {
        s.skip(s.len() - count as int)
    }
}

impl Filter {
    pub fn get_hostname(&self) -> (r: Option<&String>)
        ensures
            r matches Some(h) ==> self@.hostname == Some(h@),
            r is None ==> self@.hostname is None,
    {
        self.hostname.as_ref()
    }

    /// Restricts to one host: the given one, the current one when none
    /// is given, or all hosts.
    pub fn hostname(
        self,
        hostname: Option<String>,
        all_hosts: bool,
        current_hostname: String,
    ) -> (r: Filter)
        ensures
            r@ == (FilterView {
                hostname: if all_hosts {
                    None
                } else {
                    match hostname {
                        Some(h) => Some(h@),
                        None => Some(current_hostname@),
                    }
                },
                ..self@
            }),
    {
        let hostname = if all_hosts {
            None
        } else {
            match hostname {
                Some(h) => Some(h),
                None => Some(current_hostname),
            }
        };
        Filter { hostname, ..self }
    }

    /// Restricts to a working directory, strictly or with its subtree.
    pub fn directory(self, folder: Option<String>, no_subdirs: bool) -> (r: Filter)
        ensures
            r@ == (FilterView {
                directory: match folder {
                    Some(d) => Some(d@),
                    None => None,
                },
                no_subdirs,
                ..self@
            }),
    {
        Filter { directory: folder, no_subdirs, ..self }
    }

    /// Keeps only the last `count` entries; zero means all.
    pub fn count(self, count: usize) -> (r: Filter)
        ensures
            r@ == (FilterView { count, ..self@ }),
    {
        Filter { count, ..self }
    }

    /// Restricts by command token and by command text patterns.
    pub fn command(
        self,
        command: Option<String>,
        command_text: Option<Pattern>,
        command_text_excluded: Option<Pattern>,
    ) -> (r: Filter)
        ensures
            r@ == (FilterView {
                command: match command {
                    Some(c) => Some(c@),
                    None => None,
                },
                command_text: match command_text {
                    Some(p) => Some(p@),
                    None => None,
                },
                command_text_excluded: match command_text_excluded {
                    Some(p) => Some(p@),
                    None => None,
                },
                ..self@
            }),
    {
        Filter { command, command_text, command_text_excluded, ..self }
    }

    /// Restricts by session id text.
    pub fn session(self, session: Option<Pattern>) -> (r: Filter)
        ensures
            r@ == (FilterView {
                session: match session {
                    Some(p) => Some(p@),
                    None => None,
                },
                ..self@
            }),
    {
        Filter { session, ..self }
    }

    /// Keeps only entries whose result code is zero.
    pub fn filter_failed(self, filter_failed: bool) -> (r: Filter)
        ensures
            r@ == (FilterView { failed: filter_failed, ..self@ }),
    {
        Filter { failed: filter_failed, ..self }
    }

    /// Keeps only entries with the given result code.
    pub fn find_status(self, find_status: Option<u16>) -> (r: Filter)
        ensures
            r@ == (FilterView { find_status, ..self@ }),
    {
        Filter { find_status, ..self }
    }

    /// Whether this filter keeps the entry.
    pub fn keep(&self, e: &Entry) -> (r: bool)
        ensures
            r == spec_keep(self@, e@),
    {
        if let Some(c) = &self.command {
            if !filter_command(e.command.as_str(), c.as_str()) {
                return false;
            }
        }
        if let Some(d) = &self.directory {
            if self.no_subdirs {
                if !str_eq(e.pwd.as_str(), d.as_str()) {
                    return false;
                }
            } else {
                if !path_starts_with(e.pwd.as_str(), d.as_str()) {
                    return false;
                }
            }
        }
        if let Some(p) = &self.command_text {
            if !p.matches(e.command.as_str()) {
                return false;
            }
        }
        if let Some(p) = &self.command_text_excluded {
            if p.matches(e.command.as_str()) {
                return false;
            }
        }
        if let Some(p) = &self.session {
            let text = e.session_id.to_text();
            if !p.matches(text.as_str()) {
                return false;
            }
        }
        if self.failed && e.result != 0 {
            return false;
        }
        if let Some(v) = self.find_status {
            if e.result != v {
                return false;
            }
        }
        true
    }

    /// Applies every option to the sorted entries: predicates first,
    /// order untouched, then the last `count`.
    pub fn filter_entries(&self, entries: Vec<Entry>) -> (r: Vec<Entry>)
        ensures
            r.deep_view() == apply_count(kept(self@, entries.deep_view()), self@.count),
    {
        let ghost fv = self@;
        let mut out: Vec<Entry> = Vec::new();
        let mut i: usize = 0;
        proof {
            reveal(Seq::filter);
            assert(entries.deep_view().subrange(0, 0) =~= Seq::<EntryView>::empty());
            assert(out.deep_view() =~= kept(fv, entries.deep_view().subrange(0, 0)));
        }
        while i < entries.len()
            invariant
                i <= entries@.len(),
                entries.deep_view().len() == entries@.len(),
                fv == self@,
                out.deep_view() == kept(fv, entries.deep_view().subrange(0, i as int)),
            decreases entries@.len() - i,
        {
            let ghost pre = entries.deep_view().subrange(0, i as int);
            let ghost pre2 = entries.deep_view().subrange(0, i + 1 as int);
            proof {
                assert(pre2.drop_last() =~= pre);
                assert(pre2.last() == entries.deep_view()[i as int]);
            }
            let keep_it = self.keep(&entries[i]);
            proof {
                assert(entries.deep_view()[i as int] == entries[i as int]@);
                assert(keep_it == spec_keep(fv, pre2.last()));
            }
            if keep_it {
                out.push(entries[i].duplicate());
                proof {
                    reveal(Seq::filter);
                    assert(out.deep_view() =~= kept(fv, pre).push(entries.deep_view()[i as int]));
                    assert(kept(fv, pre2) == kept(fv, pre).push(pre2.last()));
                    assert(out.deep_view() == kept(fv, pre2));
                }
            } else {
                proof {
                    reveal(Seq::filter);
                    assert(kept(fv, pre2) == kept(fv, pre));
                    assert(out.deep_view() == kept(fv, pre2));
                }
            }
            i += 1;
        }
        proof {
            assert(entries.deep_view().subrange(0, entries@.len() as int) =~= entries.deep_view());
        }
        if self.count > 0 && out.len() > self.count {
            let start = out.len() - self.count;
            let mut tail: Vec<Entry> = Vec::new();
            let mut k = start;
            proof {
                assert(tail.deep_view() =~= out.deep_view().subrange(
                    start as int,
                    start as int,
                ));
            }
            while k < out.len()
                invariant
                    start <= k <= out@.len(),
                    out.deep_view().len() == out@.len(),
                    start < out@.len(),
                    tail.deep_view() == out.deep_view().subrange(start as int, k as int),
                decreases out@.len() - k,
            {
                let ghost old_deep = tail.deep_view();
                let ghost old_sh = tail@;
                tail.push(out[k].duplicate());
                proof {
                    let od = out.deep_view();
                    assert(od[k as int] == out[k as int]@);
                    assert(old_deep.len() == old_sh.len());
                    assert(old_deep.len() == k - start);
                    assert(k < od.len());
                    assert forall|j: int| 0 <= j < tail@.len() implies #[trigger] tail.deep_view()[j]
                        == od.subrange(start as int, k + 1 as int)[j] by {
                        assert(tail@.len() == old_sh.len() + 1);
                        assert(start + j <= k as int);
                        assert(tail.deep_view()[j] == tail@[j]@);
                        assert(od.subrange(start as int, k + 1 as int)[j] == od[start + j]);
                        if j < old_sh.len() {
                            assert(tail@[j] == old_sh[j]);
                            assert(old_deep[j] == old_sh[j]@);
                            assert(od.subrange(start as int, k as int)[j] == od[start + j]);
                            assert(old_deep[j] == od.subrange(start as int, k as int)[j]);
                        } else {
                            assert(j == k - start);
                            assert(tail@[j]@ == od[k as int]);
                        }
                    }
                    assert(tail.deep_view() =~= od.subrange(start as int, k + 1 as int));
                }
                k += 1;
            }
            proof {
                assert(tail.deep_view() =~= out.deep_view().skip(start as int));
            }
            tail
        } else {
            out
        }
    }
}

} // verus!
