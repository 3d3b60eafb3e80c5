//! The processor: the daemon's single consumer of raw datagrams. It
//! decodes each one and drives the session-keyed pairing state machine
//! over the durable database, handing back what the surrounding threads
//! must do: nothing, append one entry, or shut down.

use vstd::prelude::*;
use crate::codec::{decode, spec_decode, dec_start, enc_start, start_encodable, CodecError};
use crate::db::{SessionDb, DbError};
use crate::entry::{Entry, EntryView, spec_entry_of};
use crate::message::{Message, MessageView, CommandStart, CommandFinished, CommandStartView};
use crate::session::SessionId;

verus! {

/// The pairing state, viewed from the database: the pending starts and
/// the disabled sessions.
#[verifier::ext_equal]
pub struct SessionState {
    pub pending: Map<Seq<u8>, Seq<u8>>,
    pub disabled: Set<Seq<u8>>,
}

pub open spec fn state_of(db: SessionDb) -> SessionState {
    SessionState { pending: db.pending(), disabled: db.disabled() }
}

/// A freshly created database: nothing pending, nothing disabled.
pub open spec fn empty_state() -> SessionState {
    SessionState { pending: Map::empty(), disabled: Set::empty() }
}

/// One transition of the pairing state machine.
///
/// A start is recorded unless its session is already pending (a second
/// start is dropped, so a session has at most one pending start) or
/// disabled. A finish removes the pending start. Disabling a session
/// removes any pending start along with marking it; enabling only
/// unmarks it.
pub open spec fn spec_step(st: SessionState, m: MessageView) -> SessionState {
    match m {
        MessageView::Stop => st,
        MessageView::Disable(sid) => SessionState {
            pending: st.pending.remove(sid),
            disabled: st.disabled.insert(sid),
        },
        MessageView::Enable(sid) => SessionState {
            pending: st.pending,
            disabled: st.disabled.remove(sid),
        },
        MessageView::CommandStart(c) => {
            if st.pending.dom().contains(c.session_id) || st.disabled.contains(c.session_id) {
                st
            } else {
                SessionState {
                    pending: st.pending.insert(c.session_id, enc_start(c)),
                    disabled: st.disabled,
                }
            }
        },
        MessageView::CommandFinished(f) => {
            if st.disabled.contains(f.session_id) || !st.pending.dom().contains(f.session_id) {
                st
            } else {
                SessionState { pending: st.pending.remove(f.session_id), disabled: st.disabled }
            }
        },
    }
}

/// The entry one step hands to the index, if any: a finish for a
/// pending, enabled session whose cached start reads back.
pub open spec fn spec_emit(st: SessionState, m: MessageView) -> Option<EntryView> {
    match m {
        MessageView::CommandFinished(f) => {
            if !st.disabled.contains(f.session_id) && st.pending.dom().contains(f.session_id) {
                match dec_start(st.pending[f.session_id], 0) {
                    Some(p) => {
                        if p.1 == st.pending[f.session_id].len() {
                            Some(spec_entry_of(p.0, f))
                        } else {
                            None
                        }
                    },
                    None => None,
                }
            } else {
                None
            }
        },
        _ => None,
    }
}

/// A session id is never both pending and disabled: every step keeps
/// the two sides of the state disjoint.
pub proof fn lemma_step_keeps_disjoint(st: SessionState, m: MessageView)
    requires
        st.pending.dom().disjoint(st.disabled),
    ensures
        spec_step(st, m).pending.dom().disjoint(spec_step(st, m).disabled),
{
    let st2 = spec_step(st, m);
    assert forall|k: Seq<u8>| st2.pending.dom().contains(k) implies !st2.disabled.contains(k) by {
        match m {
            MessageView::Stop => {},
            MessageView::Disable(sid) => {
                assert(st.pending.dom().contains(k) && k != sid);
            },
            MessageView::Enable(sid) => {},
            MessageView::CommandStart(c) => {
                if !(st.pending.dom().contains(c.session_id) || st.disabled.contains(
                    c.session_id,
                )) {
                    if k != c.session_id {
                        assert(st.pending.dom().contains(k));
                    }
                }
            },
            MessageView::CommandFinished(f) => {
                if !(st.disabled.contains(f.session_id) || !st.pending.dom().contains(
                    f.session_id,
                )) {
                    assert(st.pending.dom().contains(k));
                }
            },
        }
    }
}

/// At most one pending start per session: the pending side is a map
/// keyed by session id, and a start for an already pending session is
/// dropped, never overwritten.
pub proof fn lemma_single_pending_start(st: SessionState, c: CommandStartView)
    ensures
        st.pending.dom().contains(c.session_id) ==> spec_step(
            st,
            MessageView::CommandStart(c),
        ) == st,
        !st.pending.dom().contains(c.session_id) && !st.disabled.contains(c.session_id) ==> spec_step(
            st,
            MessageView::CommandStart(c),
        ).pending[c.session_id] == enc_start(c),
{
}

/// A cached value that reads back as a start event for exactly the
/// session it is filed under.
#[verifier::opaque]
pub open spec fn start_value_ok(v: Seq<u8>, k: Seq<u8>) -> bool {
    exists|cs: CommandStartView|
        dec_start(v, 0) == Some((cs, v.len() as int)) && cs.session_id == k && cs.valid()
}

/// Every pending value is the cached encoding of a start event for
/// exactly the session it is filed under.
pub open spec fn wf_state(st: SessionState) -> bool {
    forall|k: Seq<u8>|
        st.pending.dom().contains(k) ==> #[trigger] start_value_ok(st.pending[k], k)
}

/// Steps on well-formed messages keep the state well-formed.
pub proof fn lemma_step_keeps_wf(st: SessionState, m: MessageView)
    requires
        wf_state(st),
        m.valid(),
        m matches MessageView::CommandStart(c) ==> start_encodable(c),
    ensures
        wf_state(spec_step(st, m)),
{
    let st2 = spec_step(st, m);
    match m {
        MessageView::CommandStart(c) => {
            if !(st.pending.dom().contains(c.session_id) || st.disabled.contains(c.session_id)) {
                crate::codec::lemma_start_value_round_trip(c);
                assert(start_value_ok(enc_start(c), c.session_id)) by {
                    reveal(start_value_ok);
                }
                assert forall|k: Seq<u8>| st2.pending.dom().contains(k) implies
                    #[trigger] start_value_ok(st2.pending[k], k) by {
                    if k == c.session_id {
                        assert(st2.pending[k] == enc_start(c));
                    } else {
                        assert(st.pending.dom().contains(k));
                        assert(st2.pending[k] == st.pending[k]);
                    }
                }
            }
        },
        _ => {
            assert forall|k: Seq<u8>| st2.pending.dom().contains(k) implies
                #[trigger] start_value_ok(st2.pending[k], k) by {
                assert(st.pending.dom().contains(k));
                assert(st2.pending[k] == st.pending[k]);
            }
        },
    }
}

/// Whatever a step emits came from a matched pair: the finish message
/// itself, and the pending start cached for the same session.
pub proof fn lemma_emitted_entry_matched(st: SessionState, m: MessageView)
    requires
        wf_state(st),
    ensures
        spec_emit(st, m) matches Some(e) ==> m matches MessageView::CommandFinished(f)
            && st.pending.dom().contains(f.session_id) && (exists|cs: CommandStartView|
            dec_start(st.pending[f.session_id], 0) == Some(
                (cs, st.pending[f.session_id].len() as int),
            ) && cs.session_id == f.session_id && e == spec_entry_of(cs, f)
                && e.session_id == f.session_id),
{
    reveal(start_value_ok);
    if spec_emit(st, m) is Some {
        let f = m->CommandFinished_0;
        let k = f.session_id;
        assert(st.pending.dom().contains(k));
        assert(start_value_ok(st.pending[k], k));
        let cs = choose|cs: CommandStartView|
            dec_start(st.pending[k], 0) == Some((cs, st.pending[k].len() as int))
                && cs.session_id == k && cs.valid();
        assert(spec_emit(st, m) == Some(spec_entry_of(cs, f)));
    }
}

/// Why one datagram was dropped.
#[derive(Debug)]
pub enum ServerError {
    /// A start for a session that already has one pending.
    SessionCommandAlreadyStarted,
    /// A finish for a session with no pending start.
    SessionCommandNotStarted,
    /// The session is disabled; nothing is recorded.
    DisabledSession(SessionId),
    /// The pending check failed in the database.
    CheckContainsEntry(DbError),
    /// The disabled check failed in the database.
    CheckDisabledSession(DbError),
    /// The start could not be cached.
    AddDbEntry(DbError),
    /// The pending start could not be removed.
    RemoveDbEntry(DbError),
    /// The datagram is not a message.
    DeserializeMessage(CodecError),
}

/// What the surrounding threads must do after one datagram.
#[derive(Debug)]
pub enum Action {
    /// Nothing: the state alone changed, or the message was dropped.
    Done,
    /// Append this entry to the index store.
    Record(Entry),
    /// Set the stop flag and send the unblocking self-datagram.
    Shutdown,
}

/// Records a start event, unless its session already has one pending or
/// is disabled.
#[verifier::rlimit(50)]
pub fn command_start(db: &mut SessionDb, data: &CommandStart) -> (r: Result<(), ServerError>)
    ensures
        r matches Ok(()) ==> !old(db).pending().dom().contains(data.session_id@) && !old(
            db,
        ).disabled().contains(data.session_id@) && state_of(*final(db)) == spec_step(
            state_of(*old(db)),
            MessageView::CommandStart(data@),
        ),
        r matches Err(e) ==> match e {
            ServerError::SessionCommandAlreadyStarted => old(db).pending().dom().contains(
                data.session_id@,
            ) && state_of(*final(db)) == state_of(*old(db)),
            ServerError::DisabledSession(s) => s@ == data.session_id@ && old(
                db,
            ).disabled().contains(data.session_id@) && !old(db).pending().dom().contains(
                data.session_id@,
            ) && state_of(*final(db)) == state_of(*old(db)),
            ServerError::CheckContainsEntry(_) => state_of(*final(db)) == state_of(*old(db)),
            ServerError::CheckDisabledSession(_) => state_of(*final(db)) == state_of(*old(db)),
            ServerError::AddDbEntry(ref de) => de is SerializeData ==> state_of(*final(db))
                == state_of(*old(db)),
            _ => true,
        },
        r matches Err(e) ==> !(e matches ServerError::DeserializeMessage(_)) && !(e
            matches ServerError::SessionCommandNotStarted),
{
    match db.contains_entry(&data.session_id) {
        Ok(true) => {
            return Err(ServerError::SessionCommandAlreadyStarted);
        },
        Ok(false) => {},
        Err(e) => {
            return Err(ServerError::CheckContainsEntry(e));
        },
    }
    match db.is_session_disabled(&data.session_id) {
        Ok(true) => {
            return Err(ServerError::DisabledSession(data.session_id));
        },
        Ok(false) => {},
        Err(e) => {
            return Err(ServerError::CheckDisabledSession(e));
        },
    }
    match db.add_entry(data) {
        Ok(()) => {
            proof {
                assert(state_of(*db) =~= spec_step(
                    state_of(*old(db)),
                    MessageView::CommandStart(data@),
                ));
            }
            Ok(())
        },
        Err(e) => Err(ServerError::AddDbEntry(e)),
    }
}

/// Pairs a finish event with its pending start and builds the entry to
/// append; drops the finish when the session is disabled or has no
/// pending start.
pub fn command_finished(db: &mut SessionDb, data: &CommandFinished) -> (r: Result<
    Entry,
    ServerError,
>)
    ensures
        r matches Ok(en) ==> !old(db).disabled().contains(data.session_id@) && old(
            db,
        ).pending().dom().contains(data.session_id@) && spec_emit(
            state_of(*old(db)),
            MessageView::CommandFinished(data@),
        ) == Some(en@) && state_of(*final(db)) == spec_step(
            state_of(*old(db)),
            MessageView::CommandFinished(data@),
        ),
        r matches Err(e) ==> match e {
            ServerError::DisabledSession(s) => s@ == data.session_id@ && old(
                db,
            ).disabled().contains(data.session_id@) && state_of(*final(db)) == state_of(
                *old(db),
            ),
            ServerError::SessionCommandNotStarted => !old(db).pending().dom().contains(
                data.session_id@,
            ) && !old(db).disabled().contains(data.session_id@) && state_of(*final(db))
                == state_of(*old(db)),
            ServerError::CheckDisabledSession(_) => state_of(*final(db)) == state_of(*old(db)),
            ServerError::CheckContainsEntry(_) => state_of(*final(db)) == state_of(*old(db)),
            _ => true,
        },
        r matches Err(e) ==> !(e matches ServerError::DeserializeMessage(_)) && !(e
            matches ServerError::SessionCommandAlreadyStarted),
{
    match db.is_session_disabled(&data.session_id) {
        Ok(true) => {
            return Err(ServerError::DisabledSession(data.session_id));
        },
        Ok(false) => {},
        Err(e) => {
            return Err(ServerError::CheckDisabledSession(e));
        },
    }
    match db.contains_entry(&data.session_id) {
        Ok(false) => {
            return Err(ServerError::SessionCommandNotStarted);
        },
        Ok(true) => {},
        Err(e) => {
            return Err(ServerError::CheckContainsEntry(e));
        },
    }
    let start = match db.remove_entry(&data.session_id) {
        Ok(s) => s,
        Err(e) => {
            return Err(ServerError::RemoveDbEntry(e));
        },
    };
    let entry = Entry::from_messages(start, data);
    proof {
        assert(state_of(*db) =~= spec_step(
            state_of(*old(db)),
            MessageView::CommandFinished(data@),
        ));
    }
    Ok(entry)
}

/// Disables a session: recording stops and any pending start is
/// discarded.
pub fn disable_session(db: &mut SessionDb, sid: &SessionId) -> (r: Result<(), ServerError>)
    ensures
        r matches Ok(()) ==> state_of(*final(db)) == spec_step(
            state_of(*old(db)),
            MessageView::Disable(sid@),
        ),
        r matches Err(e) ==> e matches ServerError::RemoveDbEntry(_),
{
    match db.disable_session(sid) {
        Ok(()) => {
            proof {
                assert(state_of(*db) =~= spec_step(state_of(*old(db)), MessageView::Disable(sid@)));
            }
            Ok(())
        },
        Err(e) => Err(ServerError::RemoveDbEntry(e)),
    }
}

/// Enables a session again; pending entries are not restored.
pub fn enable_session(db: &mut SessionDb, sid: &SessionId) -> (r: Result<(), ServerError>)
    ensures
        r matches Ok(()) ==> state_of(*final(db)) == spec_step(
            state_of(*old(db)),
            MessageView::Enable(sid@),
        ),
        r matches Err(e) ==> e matches ServerError::RemoveDbEntry(_),
{
    match db.enable_session(sid) {
        Ok(()) => {
            proof {
                assert(state_of(*db) =~= spec_step(state_of(*old(db)), MessageView::Enable(sid@)));
            }
            Ok(())
        },
        Err(e) => Err(ServerError::RemoveDbEntry(e)),
    }
}

/// Decodes one datagram and dispatches it: the daemon's whole per-
/// message step. Dropped messages (protocol errors) leave the state
/// exactly as the state machine leaves it.
pub fn process(db: &mut SessionDb, data: &Vec<u8>) -> (r: Result<Action, ServerError>)
    ensures
        r matches Ok(a) ==> spec_decode(data@) matches Some(m) && state_of(*final(db))
            == spec_step(state_of(*old(db)), m) && (match a {
            Action::Record(en) => spec_emit(state_of(*old(db)), m) == Some(en@),
            Action::Shutdown => m is Stop,
            Action::Done => !(m is Stop),
        }),
        r matches Err(e) ==> match e {
            ServerError::DeserializeMessage(_) => spec_decode(data@) is None && state_of(
                *final(db),
            ) == state_of(*old(db)),
            ServerError::SessionCommandAlreadyStarted => state_of(*final(db)) == state_of(
                *old(db),
            ),
            ServerError::SessionCommandNotStarted => state_of(*final(db)) == state_of(*old(db)),
            ServerError::DisabledSession(_) => state_of(*final(db)) == state_of(*old(db)),
            _ => true,
        },
        spec_decode(data@) is None <==> (r matches Err(e) && e
            matches ServerError::DeserializeMessage(_)),
        (spec_decode(data@) matches Some(m) && m is Stop) ==> (r matches Ok(a) && a is Shutdown),
{
    let message = match decode(data) {
        Ok(m) => m,
        Err(e) => {
            return Err(ServerError::DeserializeMessage(e));
        },
    };
    match message {
        Message::Stop => Ok(Action::Shutdown),
        Message::CommandStart(c) => {
            match command_start(db, &c) {
                Ok(()) => Ok(Action::Done),
                Err(e) => Err(e),
            }
        },
        Message::CommandFinished(f) => {
            match command_finished(db, &f) {
                Ok(en) => Ok(Action::Record(en)),
                Err(e) => Err(e),
            }
        },
        Message::Disable(sid) => {
            match disable_session(db, &sid) {
                Ok(()) => Ok(Action::Done),
                Err(e) => Err(e),
            }
        },
        Message::Enable(sid) => {
            match enable_session(db, &sid) {
                Ok(()) => Ok(Action::Done),
                Err(e) => Err(e),
            }
        },
    }
}

/// What the daemon is built from: its directories, its socket path,
/// and whether it installs a termination-signal handler. The binary
/// around the library opens the database, binds the socket and spawns
/// the threads from this.
#[derive(Debug)]
pub struct Builder {
    pub cache_dir: String,
    pub data_dir: String,
    pub socket: String,
    pub handle_ctrlc: bool,
}

/// Collects the daemon's configuration.
pub fn builder(cache_dir: String, data_dir: String, socket: String, handle_ctrlc: bool) -> (r:
    Builder)
    ensures
        r.cache_dir@ == cache_dir@,
        r.data_dir@ == data_dir@,
        r.socket@ == socket@,
        r.handle_ctrlc == handle_ctrlc,
{
    Builder { cache_dir, data_dir, socket, handle_ctrlc }
}

/// The state after a run of messages.
pub open spec fn run_steps(st: SessionState, msgs: Seq<MessageView>) -> SessionState
    decreases msgs.len(),
{
    if msgs.len() == 0 {
        st
    } else {
        spec_step(run_steps(st, msgs.drop_last()), msgs.last())
    }
}

/// The entries the index gains over a run: what each step emits, minus
/// the empty commands the store skips.
pub open spec fn run_appends(st: SessionState, msgs: Seq<MessageView>) -> Seq<EntryView>
    decreases msgs.len(),
{
    if msgs.len() == 0 {
        Seq::empty()
    } else {
        let prev = run_steps(st, msgs.drop_last());
        let out = run_appends(st, msgs.drop_last());
        match spec_emit(prev, msgs.last()) {
            Some(e) => if e.command.len() > 0 {
                out.push(e)
            } else {
                out
            },
            None => out,
        }
    }
}

/// Messages as the decoder hands them over: valid, with starts that fit
/// their cached form.
pub open spec fn msgs_ok(msgs: Seq<MessageView>) -> bool {
    forall|i: int|
        0 <= i < msgs.len() ==> (#[trigger] msgs[i]).valid() && (msgs[i]
            matches MessageView::CommandStart(c) ==> start_encodable(c))
}

/// A start and a finish for this entry's session stand in the messages,
/// the start first.
pub open spec fn matched_in(e: EntryView, msgs: Seq<MessageView>) -> bool {
    exists|i: int, j: int|
        0 <= i < j < msgs.len() && ((#[trigger] msgs[i]) matches MessageView::CommandStart(c)
            && c.session_id == e.session_id) && ((#[trigger] msgs[j])
            matches MessageView::CommandFinished(f) && f.session_id == e.session_id)
}

/// Every pending session saw a start earlier in the run.
pub open spec fn pending_started(st: SessionState, msgs: Seq<MessageView>) -> bool {
    forall|k: Seq<u8>|
        st.pending.dom().contains(k) ==> (exists|i: int|
            0 <= i < msgs.len() && ((#[trigger] msgs[i]) matches MessageView::CommandStart(c)
                && c.session_id == k))
}

proof fn lemma_run_keeps_wf(msgs: Seq<MessageView>)
    requires
        msgs_ok(msgs),
    ensures
        wf_state(run_steps(empty_state(), msgs)),
    decreases msgs.len(),
{
    if msgs.len() == 0 {
        assert(wf_state(empty_state()));
    } else {
        let p = msgs.drop_last();
        assert(msgs_ok(p)) by {
            assert(forall|i: int| 0 <= i < p.len() ==> p[i] == msgs[i]);
        }
        lemma_run_keeps_wf(p);
        assert(msgs.last() == msgs[msgs.len() - 1]);
        lemma_step_keeps_wf(run_steps(empty_state(), p), msgs.last());
    }
}

proof fn lemma_run_pending_started(msgs: Seq<MessageView>)
    ensures
        pending_started(run_steps(empty_state(), msgs), msgs),
    decreases msgs.len(),
{
    if msgs.len() == 0 {
    } else {
        let p = msgs.drop_last();
        lemma_run_pending_started(p);
        let prev = run_steps(empty_state(), p);
        let st2 = run_steps(empty_state(), msgs);
        let m = msgs.last();
        assert forall|k: Seq<u8>| st2.pending.dom().contains(k) implies (exists|i: int|
            0 <= i < msgs.len() && ((#[trigger] msgs[i]) matches MessageView::CommandStart(c)
                && c.session_id == k)) by {
            let fresh = match m {
                MessageView::CommandStart(c) => !prev.pending.dom().contains(c.session_id)
                    && !prev.disabled.contains(c.session_id) && c.session_id == k,
                _ => false,
            };
            if fresh {
                assert(msgs[msgs.len() - 1] == m);
                assert(msgs[msgs.len() - 1] matches MessageView::CommandStart(c) && c.session_id
                    == k);
            } else {
                assert(prev.pending.dom().contains(k));
                let i0 = choose|i: int|
                    0 <= i < p.len() && ((#[trigger] p[i]) matches MessageView::CommandStart(c)
                        && c.session_id == k);
                assert(msgs[i0] == p[i0]);
                assert(msgs[i0] matches MessageView::CommandStart(c) && c.session_id == k);
            }
        }
    }
}

proof fn lemma_matched_in_extend(e: EntryView, p: Seq<MessageView>, m: MessageView)
    requires
        matched_in(e, p),
    ensures
        matched_in(e, p.push(m)),
{
    let (i, j) = choose|i: int, j: int|
        0 <= i < j < p.len() && ((#[trigger] p[i]) matches MessageView::CommandStart(c)
            && c.session_id == e.session_id) && ((#[trigger] p[j])
            matches MessageView::CommandFinished(f) && f.session_id == e.session_id);
    assert(p.push(m)[i] == p[i]);
    assert(p.push(m)[j] == p[j]);
    assert(0 <= i < j < p.push(m).len());
}

/// Every appended entry descends from a matched pair: somewhere earlier
/// in the run stand a start and then a finish carrying its session id,
/// and its command is not empty.
pub proof fn lemma_appends_have_matched_sources(msgs: Seq<MessageView>)
    requires
        msgs_ok(msgs),
    ensures
        forall|n: int|
            0 <= n < run_appends(empty_state(), msgs).len() ==> matched_in(
                #[trigger] run_appends(empty_state(), msgs)[n],
                msgs,
            ) && run_appends(empty_state(), msgs)[n].command.len() > 0,
    decreases msgs.len(),
{
    if msgs.len() == 0 {
    } else {
        let p = msgs.drop_last();
        let m = msgs.last();
        assert(msgs_ok(p)) by {
            assert(forall|i: int| 0 <= i < p.len() ==> p[i] == msgs[i]);
        }
        lemma_appends_have_matched_sources(p);
        lemma_run_keeps_wf(p);
        lemma_run_pending_started(p);
        let prev = run_steps(empty_state(), p);
        let out = run_appends(empty_state(), p);
        let whole = run_appends(empty_state(), msgs);
        assert(p.push(m) =~= msgs);
        assert forall|n: int| 0 <= n < whole.len() implies matched_in(#[trigger] whole[n], msgs)
            && whole[n].command.len() > 0 by {
            if n < out.len() {
                assert(whole[n] == out[n]);
                lemma_matched_in_extend(out[n], p, m);
            } else {
                let e = whole[n];
                assert(spec_emit(prev, m) == Some(e));
                lemma_emitted_entry_matched(prev, m);
                let f = m->CommandFinished_0;
                assert(prev.pending.dom().contains(f.session_id));
                assert(e.session_id == f.session_id);
                let i0 = choose|i: int|
                    0 <= i < p.len() && ((#[trigger] p[i]) matches MessageView::CommandStart(c)
                        && c.session_id == f.session_id);
                let j0 = msgs.len() - 1;
                assert(msgs[i0] == p[i0]);
                assert(msgs[j0] == m);
                assert(0 <= i0 < j0 < msgs.len());
                assert((msgs[i0] matches MessageView::CommandStart(c) && c.session_id
                    == e.session_id) && (msgs[j0] matches MessageView::CommandFinished(ff)
                    && ff.session_id == e.session_id));
            }
        }
    }
}

} // verus!
