//! The daemon's vocabulary: the messages that shell hooks and control
//! front-ends send over the datagram socket.

use vstd::prelude::*;
use crate::session::SessionId;
use crate::timestamp::Timestamp;

verus! {

/// A "command started" event, emitted by the shell hook when a command
/// line is accepted.
#[derive(Debug, Clone, PartialEq, Eq)]
pub struct CommandStart {
    pub command: String,
    pub pwd: String,
    pub session_id: SessionId,
    pub time_stamp: Timestamp,
    pub user: String,
    pub hostname: String,
}

pub struct CommandStartView {
    pub command: Seq<char>,
    pub pwd: Seq<char>,
    pub session_id: Seq<u8>,
    pub time_stamp: Timestamp,
    pub user: Seq<char>,
    pub hostname: Seq<char>,
}

impl View for CommandStart {
    type V = CommandStartView;

    open spec fn view(&self) -> CommandStartView {
        CommandStartView {
            command: self.command@,
            pwd: self.pwd@,
            session_id: self.session_id@,
            time_stamp: self.time_stamp,
            user: self.user@,
            hostname: self.hostname@,
        }
    }
}

impl CommandStartView {
    pub open spec fn valid(self) -> bool {
        self.session_id.len() == 16 && self.time_stamp.valid()
    }
}

/// A "command finished" event, emitted by the prompt hook with the
/// command's result code.
#[derive(Debug, Clone, PartialEq, Eq)]
pub struct CommandFinished {
    pub session_id: SessionId,
    pub time_stamp: Timestamp,
    pub result: u16,
}

pub struct CommandFinishedView {
    pub session_id: Seq<u8>,
    pub time_stamp: Timestamp,
    pub result: u16,
}

impl View for CommandFinished {
    type V = CommandFinishedView;

    open spec fn view(&self) -> CommandFinishedView {
        CommandFinishedView {
            session_id: self.session_id@,
            time_stamp: self.time_stamp,
            result: self.result,
        }
    }
}

impl CommandFinishedView {
    pub open spec fn valid(self) -> bool {
        self.session_id.len() == 16 && self.time_stamp.valid()
    }
}

/// One datagram's worth of meaning.
#[derive(Debug, Clone, PartialEq, Eq)]
pub enum Message {
    Stop,
    Disable(SessionId),
    Enable(SessionId),
    CommandStart(CommandStart),
    CommandFinished(CommandFinished),
}

pub enum MessageView {
    Stop,
    Disable(Seq<u8>),
    Enable(Seq<u8>),
    CommandStart(CommandStartView),
    CommandFinished(CommandFinishedView),
}

impl View for Message {
    type V = MessageView;

    open spec fn view(&self) -> MessageView {
        match self {
            Message::Stop => MessageView::Stop,
            Message::Disable(sid) => MessageView::Disable(sid@),
            Message::Enable(sid) => MessageView::Enable(sid@),
            Message::CommandStart(c) => MessageView::CommandStart(c@),
            Message::CommandFinished(f) => MessageView::CommandFinished(f@),
        }
    }
}

impl MessageView {
    pub open spec fn valid(self) -> bool {
        match self {
            MessageView::Stop => true,
            MessageView::Disable(sid) => sid.len() == 16,
            MessageView::Enable(sid) => sid.len() == 16,
            MessageView::CommandStart(c) => c.valid(),
            MessageView::CommandFinished(f) => f.valid(),
        }
    }
}

} // verus!
