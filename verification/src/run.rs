//! The front-end paths: each subcommand's decision and the exact
//! datagram it sends, plus the little pure helpers of the query
//! display. Sending, environment reading and rendering live in the
//! binary around the library.

use vstd::prelude::*;
use crate::codec::{encode, spec_encode, encodable};
use crate::config::Config;
use crate::entry::{spec_trim, trim_str};
use crate::message::{Message, MessageView, CommandStart, CommandFinished};
use crate::session::{SessionId, spec_session_text};
use crate::text::push_char;
use vstd::string::StrSliceExecFns;

verus! {

/// Whether a column is printed.
#[derive(Debug, Clone, Copy, PartialEq, Eq, Structural)]
pub enum Display {
    Hide,
    Show,
}

impl Display {
    pub fn is_show(&self) -> (r: bool)
        ensures
            r == (self is Show),
    {
        match self {
            Display::Show => true,
            Display::Hide => false,
        }
    }

    pub fn should_hide(b: bool) -> (r: Display)
        ensures
            r == (if b {
                Display::Hide
            } else {
                Display::Show
            }),
    {
        if b {
            Display::Hide
        } else {
            Display::Show
        }
    }

    pub fn should_show(b: bool) -> (r: Display)
        ensures
            r == (if b {
                Display::Show
            } else {
                Display::Hide
            }),
    {
        if b {
            Display::Show
        } else {
            Display::Hide
        }
    }
}

/// Which columns the query output shows.
#[derive(Debug)]
pub struct TableDisplay {
    pub format: bool,
    pub duration: Display,
    pub header: Display,
    pub host: Display,
    pub pwd: Display,
    pub session: Display,
    pub status: Display,
}

impl Default for TableDisplay {
    /// Formatted output with a header and the command column only.
    fn default() -> (r: TableDisplay)
        ensures
            r.format,
            r.duration is Hide,
            r.header is Show,
            r.host is Hide,
            r.pwd is Hide,
            r.session is Hide,
            r.status is Hide,
    {
        TableDisplay {
            format: true,
            duration: Display::Hide,
            header: Display::Show,
            host: Display::Hide,
            pwd: Display::Hide,
            session: Display::Hide,
            status: Display::Hide,
        }
    }
}

/// Whether the daemon's loop goes on.
#[derive(Debug, Clone, Copy, PartialEq, Eq, Structural)]
pub enum RunState {
    Stop,
    Continue,
}

impl RunState {
    pub fn is_stop(&self) -> (r: bool)
        ensures
            r == (self is Stop),
    {
        match self {
            RunState::Stop => true,
            RunState::Continue => false,
        }
    }
}

/// The datagram that asks the daemon to stop.
pub fn stop() -> (r: Vec<u8>)
    ensures
        r@ == spec_encode(MessageView::Stop),
{
    match encode(&Message::Stop) {
        Some(v) => v,
        None => {
            proof {
                assert(false);
            }
            Vec::new()
        },
    }
}

/// The datagram that disables recording for the session.
pub fn disable(session_id: &SessionId) -> (r: Vec<u8>)
    ensures
        r@ == spec_encode(MessageView::Disable(session_id@)),
{
    match encode(&Message::Disable(SessionId { bytes: session_id.bytes })) {
        Some(v) => v,
        None => {
            proof {
                assert(false);
            }
            Vec::new()
        },
    }
}

/// The datagram that enables recording for the session again.
pub fn enable(session_id: &SessionId) -> (r: Vec<u8>)
    ensures
        r@ == spec_encode(MessageView::Enable(session_id@)),
{
    match encode(&Message::Enable(SessionId { bytes: session_id.bytes })) {
        Some(v) => v,
        None => {
            proof {
                assert(false);
            }
            Vec::new()
        },
    }
}

/// The datagram the prompt hook sends when a command finishes.
pub fn precmd(data: CommandFinished) -> (r: Vec<u8>)
    ensures
        r@ == spec_encode(MessageView::CommandFinished(data@)),
{
    let ghost dv = data@;
    match encode(&Message::CommandFinished(data)) {
        Some(v) => v,
        None => {
            proof {
                assert(false);
            }
            Vec::new()
        },
    }
}

/// Whether a command line is skipped instead of recorded: the
/// configuration ignores commands that start with a space.
pub open spec fn spec_skip_command(config_ignore_space: bool, command: Seq<char>) -> bool {
    config_ignore_space && command.len() > 0 && command[0] == ' '
}

/// Whether a command line is skipped before anything else is gathered
/// for it (see [`spec_skip_command`]).
pub fn skip_command(ignore_space: bool, command: &str) -> (r: bool)
    ensures
        r == spec_skip_command(ignore_space, command@),
{
    ignore_space && command.unicode_len() > 0 && command.get_char(0) == ' '
}

/// The datagram the accept-line hook sends for a new command, or
/// nothing when the command is skipped or one of its fields overruns
/// the wire format.
pub fn zsh_add_history(config: &Config, data: CommandStart) -> (r: Option<Vec<u8>>)
    ensures
        r matches Some(v) ==> v@ == spec_encode(MessageView::CommandStart(data@))
            && !spec_skip_command(config.ignore_space, data@.command),
        r is None ==> spec_skip_command(config.ignore_space, data@.command) || !encodable(
            MessageView::CommandStart(data@),
        ),
{
    if config.ignore_space && data.command.as_str().unicode_len() > 0 && data.command.as_str()
        .get_char(0) == ' ' {
        return None;
    }
    let ghost dv = data@;
    encode(&Message::CommandStart(data))
}

/// Line breaks of a command replaced with a two-character escape, for
/// unformatted output.
pub open spec fn spec_escape_newlines(s: Seq<char>) -> Seq<char>
    decreases s.len(),
{
    if s.len() == 0 {
        s
    } else if s[0] == '\n' {
        seq!['\\', 'n'] + spec_escape_newlines(s.drop_first())
    } else {
        seq![s[0]] + spec_escape_newlines(s.drop_first())
    }
}

proof fn lemma_escape_newlines_snoc(s: Seq<char>, c: char)
    ensures
        spec_escape_newlines(s.push(c)) == spec_escape_newlines(s) + (if c == '\n' {
            seq!['\\', 'n']
        } else {
            seq![c]
        }),
    decreases s.len(),
{
    let tail = if c == '\n' {
        seq!['\\', 'n']
    } else {
        seq![c]
    };
    if s.len() == 0 {
        assert(s.push(c)[0] == c);
        assert(s.push(c).drop_first() =~= s);
        assert(spec_escape_newlines(s.push(c)) =~= spec_escape_newlines(s) + tail);
    } else {
        assert(s.push(c)[0] == s[0]);
        assert(s.push(c).drop_first() =~= s.drop_first().push(c));
        lemma_escape_newlines_snoc(s.drop_first(), c);
        assert(spec_escape_newlines(s.push(c)) =~= spec_escape_newlines(s) + tail);
    }
}

/// A command prepared for display: trimmed, and with line breaks
/// escaped when fancy formatting is off.
pub fn format_command(command: &str, format: bool) -> (r: String)
    ensures
        format ==> r@ == spec_trim(command@),
        !format ==> r@ == spec_escape_newlines(spec_trim(command@)),
{
    let trimmed = trim_str(command);
    if format {
        return trimmed;
    }
    let s = trimmed.as_str();
    let n = s.unicode_len();
    let mut out = String::new();
    let mut i: usize = 0;
    proof {
        assert(s@.subrange(0, 0) =~= Seq::<char>::empty());
        assert(out@ =~= spec_escape_newlines(s@.subrange(0, 0)));
    }
    while i < n
        invariant
            i <= n,
            n == s@.len(),
            out@ == spec_escape_newlines(s@.subrange(0, i as int)),
        decreases n - i,
    {
        let c = s.get_char(i);
        if c == '\n' {
            push_char(&mut out, '\\');
            push_char(&mut out, 'n');
        } else {
            push_char(&mut out, c);
        }
        proof {
            let pre = s@.subrange(0, i as int);
            assert(s@.subrange(0, i + 1 as int) =~= pre.push(s@[i as int]));
            lemma_escape_newlines_snoc(pre, s@[i as int]);
            assert(out@ =~= spec_escape_newlines(s@.subrange(0, i + 1 as int)));
        }
        i += 1;
    }
    proof {
        assert(s@.subrange(0, n as int) =~= s@);
    }
    out
}

/// The short session tag the query output shows: the first four
/// characters of the session id's text form.
pub fn format_uuid(session_id: &SessionId) -> (r: String)
    ensures
        r@ == spec_session_text(session_id@).subrange(0, 4),
{
    let text = session_id.to_text();
    proof {
        crate::session::lemma_hex_of_len(session_id@.subrange(0, 4));
        crate::session::lemma_hex_of_len(session_id@.subrange(4, 6));
        crate::session::lemma_hex_of_len(session_id@.subrange(6, 8));
        crate::session::lemma_hex_of_len(session_id@.subrange(8, 10));
        crate::session::lemma_hex_of_len(session_id@.subrange(10, 16));
        assert(text@.len() == 36);
    }
    text.as_str().substring_char(0, 4).to_owned()
}

} // verus!
