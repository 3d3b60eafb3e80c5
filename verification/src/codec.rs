//! The wire codec: a compact, length-free binary framing that fits one
//! datagram. A message is a variant tag followed by its fields in
//! declared order; strings are length-prefixed UTF-8 bytes, timestamps
//! are their civil UTC fields, session ids are 16 raw bytes. A datagram
//! longer than [`MAX_MESSAGE`] bytes is rejected at decode.

use vstd::prelude::*;
use vstd::utf8::{encode_utf8, decode_utf8, valid_utf8};
use crate::message::{
    Message,
    MessageView,
    CommandStart,
    CommandStartView,
    CommandFinished,
    CommandFinishedView,
};
use crate::session::SessionId;
use crate::timestamp::Timestamp;
use crate::text::string_from_utf8;
use vstd::string::StrSliceExecFns;
use vstd::array::ArrayAdditionalExecFns;

verus! {

/// Largest accepted datagram: one IPv4 UDP payload, which is also the
/// receiver's buffer size.
pub const MAX_MESSAGE: usize = 65527;

/// Why a datagram was rejected.
#[derive(Debug, Clone, Copy, PartialEq, Eq, Structural)]
pub enum CodecError {
    /// Longer than [`MAX_MESSAGE`].
    Oversize,
    /// Not an exact encoding of any message.
    Malformed,
}

pub open spec fn enc_u16(x: u16) -> Seq<u8> {
    seq![(x % 256) as u8, (x / 256) as u8]
}

pub open spec fn enc_u32(x: u32) -> Seq<u8> {
    seq![
        (x % 256) as u8,
        ((x / 256) % 256) as u8,
        ((x / 65536) % 256) as u8,
        ((x / 16777216) % 256) as u8,
    ]
}

pub open spec fn str_bytes(s: Seq<char>) -> Seq<u8> {
    encode_utf8(s)
}

pub open spec fn enc_str(s: Seq<char>) -> Seq<u8> {
    enc_u32(str_bytes(s).len() as u32) + str_bytes(s)
}

pub open spec fn enc_ts(t: Timestamp) -> Seq<u8> {
    enc_u16(t.year) + seq![t.month, t.day, t.hour, t.minute, t.second] + enc_u32(t.nanos)
}

pub open spec fn enc_start(c: CommandStartView) -> Seq<u8> {
    enc_str(c.command) + enc_str(c.pwd) + c.session_id + enc_ts(c.time_stamp) + enc_str(c.user)
        + enc_str(c.hostname)
}

pub open spec fn enc_finished(f: CommandFinishedView) -> Seq<u8> {
    f.session_id + enc_ts(f.time_stamp) + enc_u16(f.result)
}

/// The bytes of one message.
pub open spec fn spec_encode(m: MessageView) -> Seq<u8> {
    match m {
        MessageView::Stop => seq![0u8],
        MessageView::Disable(sid) => seq![1u8] + sid,
        MessageView::Enable(sid) => seq![2u8] + sid,
        MessageView::CommandStart(c) => seq![3u8] + enc_start(c),
        MessageView::CommandFinished(f) => seq![4u8] + enc_finished(f),
    }
}

/// Every string of the message fits its four-byte length prefix.
pub open spec fn encodable(m: MessageView) -> bool {
    match m {
        MessageView::CommandStart(c) => str_bytes(c.command).len() < 0x100000000 && str_bytes(
            c.pwd,
        ).len() < 0x100000000 && str_bytes(c.user).len() < 0x100000000 && str_bytes(
            c.hostname,
        ).len() < 0x100000000,
        _ => true,
    }
}

pub open spec fn dec_u16(d: Seq<u8>, i: int) -> Option<(u16, int)> {
    if 0 <= i && i + 2 <= d.len() {
        Some(((d[i] + 256 * d[i + 1]) as u16, i + 2))
    } else {
        None
    }
}

pub open spec fn dec_u32(d: Seq<u8>, i: int) -> Option<(u32, int)> {
    if 0 <= i && i + 4 <= d.len() {
        Some(((d[i] + 256 * d[i + 1] + 65536 * d[i + 2] + 16777216 * d[i + 3]) as u32, i + 4))
    } else {
        None
    }
}

pub open spec fn dec_sid(d: Seq<u8>, i: int) -> Option<(Seq<u8>, int)> {
    if 0 <= i && i + 16 <= d.len() {
        Some((d.subrange(i, i + 16), i + 16))
    } else {
        None
    }
}

pub open spec fn dec_str(d: Seq<u8>, i: int) -> Option<(Seq<char>, int)> {
    match dec_u32(d, i) {
        Some((n, j)) => {
            if j + n <= d.len() {
                let bytes = d.subrange(j, j + n);
                if valid_utf8(bytes) {
                    Some((decode_utf8(bytes), j + n))
                } else {
                    None
                }
            } else {
                None
            }
        },
        None => None,
    }
}

pub open spec fn dec_ts(d: Seq<u8>, i: int) -> Option<(Timestamp, int)> {
    if 0 <= i && i + 11 <= d.len() {
        let t = Timestamp {
            year: (d[i] + 256 * d[i + 1]) as u16,
            month: d[i + 2],
            day: d[i + 3],
            hour: d[i + 4],
            minute: d[i + 5],
            second: d[i + 6],
            nanos: (d[i + 7] + 256 * d[i + 8] + 65536 * d[i + 9] + 16777216 * d[i + 10]) as u32,
        };
        if t.valid() {
            Some((t, i + 11))
        } else {
            None
        }
    } else {
        None
    }
}

pub open spec fn dec_start(d: Seq<u8>, i: int) -> Option<(CommandStartView, int)> {
    match dec_str(d, i) {
        Some((command, i1)) => match dec_str(d, i1) {
            Some((pwd, i2)) => match dec_sid(d, i2) {
                Some((session_id, i3)) => match dec_ts(d, i3) {
                    Some((time_stamp, i4)) => match dec_str(d, i4) {
                        Some((user, i5)) => match dec_str(d, i5) {
                            Some((hostname, i6)) => Some(
                                (
                                    CommandStartView {
                                        command,
                                        pwd,
                                        session_id,
                                        time_stamp,
                                        user,
                                        hostname,
                                    },
                                    i6,
                                ),
                            ),
                            None => None,
                        },
                        None => None,
                    },
                    None => None,
                },
                None => None,
            },
            None => None,
        },
        None => None,
    }
}

pub open spec fn dec_finished(d: Seq<u8>, i: int) -> Option<(CommandFinishedView, int)> {
    match dec_sid(d, i) {
        Some((session_id, i1)) => match dec_ts(d, i1) {
            Some((time_stamp, i2)) => match dec_u16(d, i2) {
                Some((result, i3)) => Some(
                    (CommandFinishedView { session_id, time_stamp, result }, i3),
                ),
                None => None,
            },
            None => None,
        },
        None => None,
    }
}

/// The message a datagram holds, if it is an exact, size-bounded
/// encoding of one.
pub open spec fn spec_decode(d: Seq<u8>) -> Option<MessageView> {
    if d.len() > MAX_MESSAGE as nat {
        None
    } else if d.len() == 0 {
        None
    } else if d[0] == 0 {
        if d.len() == 1 {
            Some(MessageView::Stop)
        } else {
            None
        }
    } else if d[0] == 1 {
        match dec_sid(d, 1) {
            Some((sid, j)) => if j == d.len() {
                Some(MessageView::Disable(sid))
            } else {
                None
            },
            None => None,
        }
    } else if d[0] == 2 {
        match dec_sid(d, 1) {
            Some((sid, j)) => if j == d.len() {
                Some(MessageView::Enable(sid))
            } else {
                None
            },
            None => None,
        }
    } else if d[0] == 3 {
        match dec_start(d, 1) {
            Some((c, j)) => if j == d.len() {
                Some(MessageView::CommandStart(c))
            } else {
                None
            },
            None => None,
        }
    } else if d[0] == 4 {
        match dec_finished(d, 1) {
            Some((f, j)) => if j == d.len() {
                Some(MessageView::CommandFinished(f))
            } else {
                None
            },
            None => None,
        }
    } else {
        None
    }
}

fn push_u16(out: &mut Vec<u8>, x: u16)
    ensures
        final(out)@ == old(out)@ + enc_u16(x),
{
    out.push((x % 256) as u8);
    out.push((x / 256) as u8);
    proof {
        assert(out@ =~= old(out)@ + enc_u16(x));
    }
}

fn push_u32(out: &mut Vec<u8>, x: u32)
    ensures
        final(out)@ == old(out)@ + enc_u32(x),
{
    out.push((x % 256) as u8);
    out.push(((x / 256) % 256) as u8);
    out.push(((x / 65536) % 256) as u8);
    out.push(((x / 16777216) % 256) as u8);
    proof {
        assert(out@ =~= old(out)@ + enc_u32(x));
    }
}

fn push_str(out: &mut Vec<u8>, s: &String) -> (ok: bool)
    ensures
        ok ==> final(out)@ == old(out)@ + enc_str(s@) && str_bytes(s@).len() < 0x100000000,
        !ok ==> final(out)@ == old(out)@ && str_bytes(s@).len() >= 0x100000000,
{
    let bytes = s.as_str().as_bytes_vec();
    if bytes.len() > (u32::MAX as usize) {
        return false;
    }
    push_u32(out, bytes.len() as u32);
    let ghost mid = out@;
    let mut k: usize = 0;
    while k < bytes.len()
        invariant
            k <= bytes.len(),
            bytes@ == str_bytes(s@),
            out@ == mid + bytes@.subrange(0, k as int),
        decreases bytes.len() - k,
    {
        out.push(bytes[k]);
        proof {
            assert(out@ =~= mid + bytes@.subrange(0, k + 1 as int));
        }
        k += 1;
    }
    proof {
        assert(bytes@.subrange(0, bytes@.len() as int) =~= bytes@);
        assert(out@ =~= old(out)@ + enc_str(s@));
    }
    true
}

fn push_ts(out: &mut Vec<u8>, t: &Timestamp)
    ensures
        final(out)@ == old(out)@ + enc_ts(*t),
{
    push_u16(out, t.year);
    out.push(t.month);
    out.push(t.day);
    out.push(t.hour);
    out.push(t.minute);
    out.push(t.second);
    push_u32(out, t.nanos);
    proof {
        assert(out@ =~= old(out)@ + enc_ts(*t));
    }
}

fn push_sid(out: &mut Vec<u8>, sid: &SessionId)
    ensures
        final(out)@ == old(out)@ + sid@,
{
    let mut k: usize = 0;
    while k < 16
        invariant
            k <= 16,
            sid@.len() == 16,
            out@ == old(out)@ + sid@.subrange(0, k as int),
        decreases 16 - k,
    {
        out.push(sid.bytes[k]);
        proof {
            assert(out@ =~= old(out)@ + sid@.subrange(0, k + 1 as int));
        }
        k += 1;
    }
    proof {
        assert(sid@.subrange(0, 16) =~= sid@);
    }
}

/// Encodes one message for the wire; refuses a message whose strings
/// overrun the length prefix.
pub fn encode(m: &Message) -> (r: Option<Vec<u8>>)
    ensures
        r matches Some(v) ==> v@ == spec_encode(m@) && encodable(m@),
        r is None ==> !encodable(m@),
{
    let mut out: Vec<u8> = Vec::new();
    match m {
        Message::Stop => {
            out.push(0);
            proof {
                assert(out@ =~= spec_encode(m@));
            }
            Some(out)
        },
        Message::Disable(sid) => {
            out.push(1);
            push_sid(&mut out, sid);
            proof {
                assert(out@ =~= spec_encode(m@));
            }
            Some(out)
        },
        Message::Enable(sid) => {
            out.push(2);
            push_sid(&mut out, sid);
            proof {
                assert(out@ =~= spec_encode(m@));
            }
            Some(out)
        },
        Message::CommandStart(c) => {
            out.push(3);
            if !push_str(&mut out, &c.command) {
                return None;
            }
            if !push_str(&mut out, &c.pwd) {
                return None;
            }
            push_sid(&mut out, &c.session_id);
            push_ts(&mut out, &c.time_stamp);
            if !push_str(&mut out, &c.user) {
                return None;
            }
            if !push_str(&mut out, &c.hostname) {
                return None;
            }
            proof {
                assert(out@ =~= spec_encode(m@));
            }
            Some(out)
        },
        Message::CommandFinished(f) => {
            out.push(4);
            push_sid(&mut out, &f.session_id);
            push_ts(&mut out, &f.time_stamp);
            push_u16(&mut out, f.result);
            proof {
                assert(out@ =~= spec_encode(m@));
            }
            Some(out)
        },
    }
}


fn read_u16(d: &Vec<u8>, i: usize) -> (r: Option<(u16, usize)>)
    ensures
        r matches Some(p) ==> dec_u16(d@, i as int) == Some((p.0, p.1 as int)),
        r is None ==> dec_u16(d@, i as int) is None,
{
    if d.len() >= 2 && i <= d.len() - 2 {
        let x = d[i] as u16 + 256 * (d[i + 1] as u16);
        Some((x, i + 2))
    } else {
        None
    }
}

fn read_u32(d: &Vec<u8>, i: usize) -> (r: Option<(u32, usize)>)
    ensures
        r matches Some(p) ==> dec_u32(d@, i as int) == Some((p.0, p.1 as int)),
        r is None ==> dec_u32(d@, i as int) is None,
{
    if d.len() >= 4 && i <= d.len() - 4 {
        let x = d[i] as u32 + 256 * (d[i + 1] as u32) + 65536 * (d[i + 2] as u32) + 16777216 * (d[i
            + 3] as u32);
        Some((x, i + 4))
    } else {
        None
    }
}

fn read_sid(d: &Vec<u8>, i: usize) -> (r: Option<(SessionId, usize)>)
    ensures
        r matches Some(p) ==> dec_sid(d@, i as int) == Some((p.0@, p.1 as int)),
        r is None ==> dec_sid(d@, i as int) is None,
{
    if d.len() >= 16 && i <= d.len() - 16 {
        let mut bytes: [u8; 16] = [0;16];
        let mut k: usize = 0;
        while k < 16
            invariant
                i + 16 <= d@.len() <= usize::MAX,
                k <= 16,
                forall|t: int| 0 <= t < k ==> bytes@[t] == d@[i + t],
            decreases 16 - k,
        {
            bytes.set(k, d[i + k]);
            k += 1;
        }
        proof {
            assert(bytes@ =~= d@.subrange(i as int, i as int + 16));
        }
        Some((SessionId { bytes }, i + 16))
    } else {
        None
    }
}

fn read_ts(d: &Vec<u8>, i: usize) -> (r: Option<(Timestamp, usize)>)
    ensures
        r matches Some(p) ==> dec_ts(d@, i as int) == Some((p.0, p.1 as int)),
        r is None ==> dec_ts(d@, i as int) is None,
{
    if d.len() >= 11 && i <= d.len() - 11 {
        let year = d[i] as u16 + 256 * (d[i + 1] as u16);
        let nanos = d[i + 7] as u32 + 256 * (d[i + 8] as u32) + 65536 * (d[i + 9] as u32) + 16777216
            * (d[i + 10] as u32);
        let t = Timestamp {
            year,
            month: d[i + 2],
            day: d[i + 3],
            hour: d[i + 4],
            minute: d[i + 5],
            second: d[i + 6],
            nanos,
        };
        if t.is_valid() {
            Some((t, i + 11))
        } else {
            None
        }
    } else {
        None
    }
}

fn read_str(d: &Vec<u8>, i: usize) -> (r: Option<(String, usize)>)
    ensures
        r matches Some(p) ==> dec_str(d@, i as int) matches Some(q) && p.0@ == q.0 && p.1 as int
            == q.1,
        r is None ==> dec_str(d@, i as int) is None,
{
    match read_u32(d, i) {
        None => None,
        Some((n, j)) => {
            if (n as usize) <= d.len() - j {
                let m = n as usize;
                let mut v: Vec<u8> = Vec::new();
                let mut k: usize = 0;
                while k < m
                    invariant
                        j + m <= d@.len() <= usize::MAX,
                        k <= m,
                        v@ == d@.subrange(j as int, j as int + k as int),
                    decreases m - k,
                {
                    v.push(d[j + k]);
                    proof {
                        assert(v@ =~= d@.subrange(j as int, j as int + (k + 1)));
                    }
                    k += 1;
                }
                match string_from_utf8(v) {
                    Some(s) => {
                        proof {
                            vstd::utf8::encode_utf8_decode_utf8(s@);
                        }
                        Some((s, j + m))
                    },
                    None => None,
                }
            } else {
                None
            }
        },
    }
}

fn read_start(d: &Vec<u8>, i: usize) -> (r: Option<(CommandStart, usize)>)
    ensures
        r matches Some(p) ==> dec_start(d@, i as int) matches Some(q) && p.0@ == q.0 && p.1 as int
            == q.1,
        r is None ==> dec_start(d@, i as int) is None,
{
    let (command, i1) = match read_str(d, i) {
        Some(p) => p,
        None => {
            return None;
        },
    };
    let (pwd, i2) = match read_str(d, i1) {
        Some(p) => p,
        None => {
            return None;
        },
    };
    let (session_id, i3) = match read_sid(d, i2) {
        Some(p) => p,
        None => {
            return None;
        },
    };
    let (time_stamp, i4) = match read_ts(d, i3) {
        Some(p) => p,
        None => {
            return None;
        },
    };
    let (user, i5) = match read_str(d, i4) {
        Some(p) => p,
        None => {
            return None;
        },
    };
    let (hostname, i6) = match read_str(d, i5) {
        Some(p) => p,
        None => {
            return None;
        },
    };
    Some((CommandStart { command, pwd, session_id, time_stamp, user, hostname }, i6))
}

fn read_finished(d: &Vec<u8>, i: usize) -> (r: Option<(CommandFinished, usize)>)
    ensures
        r matches Some(p) ==> dec_finished(d@, i as int) matches Some(q) && p.0@ == q.0 && p.1
            as int == q.1,
        r is None ==> dec_finished(d@, i as int) is None,
{
    let (session_id, i1) = match read_sid(d, i) {
        Some(p) => p,
        None => {
            return None;
        },
    };
    let (time_stamp, i2) = match read_ts(d, i1) {
        Some(p) => p,
        None => {
            return None;
        },
    };
    let (result, i3) = match read_u16(d, i2) {
        Some(p) => p,
        None => {
            return None;
        },
    };
    Some((CommandFinished { session_id, time_stamp, result }, i3))
}

/// Decodes one datagram; rejects anything over [`MAX_MESSAGE`] bytes,
/// and anything that is not an exact encoding of one message.
pub fn decode(d: &Vec<u8>) -> (r: Result<Message, CodecError>)
    ensures
        r matches Ok(m) ==> spec_decode(d@) == Some(m@),
        r is Err ==> spec_decode(d@) is None,
        d@.len() > MAX_MESSAGE as nat ==> r == Err::<Message, CodecError>(CodecError::Oversize),
{
    if d.len() > MAX_MESSAGE {
        return Err(CodecError::Oversize);
    }
    if d.len() == 0 {
        return Err(CodecError::Malformed);
    }
    let tag = d[0];
    if tag == 0 {
        if d.len() == 1 {
            Ok(Message::Stop)
        } else {
            Err(CodecError::Malformed)
        }
    } else if tag == 1 {
        match read_sid(d, 1) {
            Some((sid, j)) => {
                if j == d.len() {
                    Ok(Message::Disable(sid))
                } else {
                    Err(CodecError::Malformed)
                }
            },
            None => Err(CodecError::Malformed),
        }
    } else if tag == 2 {
        match read_sid(d, 1) {
            Some((sid, j)) => {
                if j == d.len() {
                    Ok(Message::Enable(sid))
                } else {
                    Err(CodecError::Malformed)
                }
            },
            None => Err(CodecError::Malformed),
        }
    } else if tag == 3 {
        match read_start(d, 1) {
            Some((c, j)) => {
                if j == d.len() {
                    Ok(Message::CommandStart(c))
                } else {
                    Err(CodecError::Malformed)
                }
            },
            None => Err(CodecError::Malformed),
        }
    } else if tag == 4 {
        match read_finished(d, 1) {
            Some((f, j)) => {
                if j == d.len() {
                    Ok(Message::CommandFinished(f))
                } else {
                    Err(CodecError::Malformed)
                }
            },
            None => Err(CodecError::Malformed),
        }
    } else {
        Err(CodecError::Malformed)
    }
}


/// Splits knowledge of a two-part segment of `d` into its parts.
proof fn lemma_split_concat(d: Seq<u8>, i: int, u: Seq<u8>, v: Seq<u8>)
    requires
        0 <= i,
        i + u.len() + v.len() <= d.len(),
        d.subrange(i, i + u.len() + v.len()) == u + v,
    ensures
        d.subrange(i, i + u.len() as int) == u,
        d.subrange(i + u.len() as int, i + u.len() + v.len()) == v,
{
    assert forall|k: int| 0 <= k < u.len() implies #[trigger] d.subrange(
        i,
        i + u.len() as int,
    )[k] == u[k] by {
        assert(d.subrange(i, i + u.len() as int)[k] == d[i + k]);
        assert(d.subrange(i, i + u.len() + v.len())[k] == d[i + k]);
        assert((u + v)[k] == u[k]);
    }
    assert(d.subrange(i, i + u.len() as int) =~= u);
    assert forall|k: int| 0 <= k < v.len() implies #[trigger] d.subrange(
        i + u.len() as int,
        i + u.len() + v.len(),
    )[k] == v[k] by {
        assert(d.subrange(i + u.len() as int, i + u.len() + v.len())[k] == d[i + u.len() + k]);
        assert(d.subrange(i, i + u.len() + v.len())[u.len() + k] == d[i + u.len() + k]);
        assert((u + v)[u.len() + k] == v[k]);
    }
    assert(d.subrange(i + u.len() as int, i + u.len() + v.len()) =~= v);
}

proof fn lemma_dec_u16_at(d: Seq<u8>, i: int, x: u16)
    requires
        0 <= i,
        i + 2 <= d.len(),
        d.subrange(i, i + 2) == enc_u16(x),
    ensures
        dec_u16(d, i) == Some((x, i + 2)),
{
    assert(d.subrange(i, i + 2)[0] == d[i]);
    assert(d.subrange(i, i + 2)[1] == d[i + 1]);
    assert(x % 256 + 256 * (x / 256) == x);
}

proof fn lemma_dec_u32_at(d: Seq<u8>, i: int, x: u32)
    requires
        0 <= i,
        i + 4 <= d.len(),
        d.subrange(i, i + 4) == enc_u32(x),
    ensures
        dec_u32(d, i) == Some((x, i + 4)),
{
    assert(d.subrange(i, i + 4)[0] == d[i]);
    assert(d.subrange(i, i + 4)[1] == d[i + 1]);
    assert(d.subrange(i, i + 4)[2] == d[i + 2]);
    assert(d.subrange(i, i + 4)[3] == d[i + 3]);
    vstd::arithmetic::div_mod::lemma_div_denominator(x as int, 256, 256);
    vstd::arithmetic::div_mod::lemma_div_denominator(x as int, 65536, 256);
    assert(x as int == 256 * (x as int / 256) + x as int % 256);
    assert(x as int / 256 == 256 * (x as int / 65536) + (x as int / 256) % 256);
    assert(x as int / 65536 == 256 * (x as int / 16777216) + (x as int / 65536) % 256);
    assert(d[i] + 256 * d[i + 1] + 65536 * d[i + 2] + 16777216 * d[i + 3] == x as int);
}

proof fn lemma_dec_ts_at(d: Seq<u8>, i: int, t: Timestamp)
    requires
        0 <= i,
        t.valid(),
        i + 11 <= d.len(),
        d.subrange(i, i + 11) == enc_ts(t),
    ensures
        dec_ts(d, i) == Some((t, i + 11)),
{
    let mid = seq![t.month, t.day, t.hour, t.minute, t.second];
    lemma_split_concat(d, i, enc_u16(t.year) + mid, enc_u32(t.nanos));
    lemma_split_concat(d, i, enc_u16(t.year), mid);
    assert(d.subrange(i, i + 2)[0] == d[i]);
    assert(d.subrange(i, i + 2)[1] == d[i + 1]);
    assert(t.year % 256 + 256 * (t.year / 256) == t.year);
    assert(d.subrange(i + 2, i + 7)[0] == d[i + 2]);
    assert(d.subrange(i + 2, i + 7)[1] == d[i + 3]);
    assert(d.subrange(i + 2, i + 7)[2] == d[i + 4]);
    assert(d.subrange(i + 2, i + 7)[3] == d[i + 5]);
    assert(d.subrange(i + 2, i + 7)[4] == d[i + 6]);
    let x = t.nanos;
    assert(d.subrange(i + 7, i + 11)[0] == d[i + 7]);
    assert(d.subrange(i + 7, i + 11)[1] == d[i + 8]);
    assert(d.subrange(i + 7, i + 11)[2] == d[i + 9]);
    assert(d.subrange(i + 7, i + 11)[3] == d[i + 10]);
    vstd::arithmetic::div_mod::lemma_div_denominator(x as int, 256, 256);
    vstd::arithmetic::div_mod::lemma_div_denominator(x as int, 65536, 256);
    assert(x as int == 256 * (x as int / 256) + x as int % 256);
    assert(x as int / 256 == 256 * (x as int / 65536) + (x as int / 256) % 256);
    assert(x as int / 65536 == 256 * (x as int / 16777216) + (x as int / 65536) % 256);
    assert(d[i + 7] + 256 * d[i + 8] + 65536 * d[i + 9] + 16777216 * d[i + 10] == x as int);
    let got = dec_ts(d, i).unwrap().0;
    assert(got == t);
}

proof fn lemma_dec_str_at(d: Seq<u8>, i: int, s: Seq<char>)
    requires
        0 <= i,
        str_bytes(s).len() < 0x100000000,
        i + enc_str(s).len() <= d.len(),
        d.subrange(i, i + enc_str(s).len() as int) == enc_str(s),
    ensures
        dec_str(d, i) == Some((s, i + enc_str(s).len())),
{
    let n = str_bytes(s).len() as int;
    assert(enc_str(s).len() == 4 + n);
    lemma_split_concat(d, i, enc_u32(n as u32), str_bytes(s));
    lemma_dec_u32_at(d, i, n as u32);
    vstd::utf8::encode_utf8_valid_utf8(s);
    vstd::utf8::encode_utf8_decode_utf8(s);
}

proof fn lemma_dec_start_at(d: Seq<u8>, i: int, c: CommandStartView)
    requires
        0 <= i,
        c.valid(),
        str_bytes(c.command).len() < 0x100000000,
        str_bytes(c.pwd).len() < 0x100000000,
        str_bytes(c.user).len() < 0x100000000,
        str_bytes(c.hostname).len() < 0x100000000,
        i + enc_start(c).len() <= d.len(),
        d.subrange(i, i + enc_start(c).len() as int) == enc_start(c),
    ensures
        dec_start(d, i) == Some((c, i + enc_start(c).len())),
{
    let e1 = enc_str(c.command);
    let e2 = enc_str(c.pwd);
    let e3 = c.session_id;
    let e4 = enc_ts(c.time_stamp);
    let e5 = enc_str(c.user);
    let e6 = enc_str(c.hostname);
    assert(e4.len() == 11);
    lemma_split_concat(d, i, e1 + e2 + e3 + e4 + e5, e6);
    lemma_split_concat(d, i, e1 + e2 + e3 + e4, e5);
    lemma_split_concat(d, i, e1 + e2 + e3, e4);
    lemma_split_concat(d, i, e1 + e2, e3);
    lemma_split_concat(d, i, e1, e2);
    let o1 = i + e1.len() as int;
    let o2 = o1 + e2.len() as int;
    let o3 = o2 + 16;
    let o4 = o3 + 11;
    let o5 = o4 + e5.len() as int;
    let o6 = o5 + e6.len() as int;
    lemma_dec_str_at(d, i, c.command);
    lemma_dec_str_at(d, o1, c.pwd);
    assert(dec_sid(d, o2) == Some((e3, o3)));
    lemma_dec_ts_at(d, o3, c.time_stamp);
    lemma_dec_str_at(d, o4, c.user);
    lemma_dec_str_at(d, o5, c.hostname);
    let got = dec_start(d, i).unwrap().0;
    assert(got.command == c.command && got.pwd == c.pwd && got.session_id == c.session_id
        && got.time_stamp == c.time_stamp && got.user == c.user && got.hostname == c.hostname);
}

proof fn lemma_dec_finished_at(d: Seq<u8>, i: int, f: CommandFinishedView)
    requires
        0 <= i,
        f.valid(),
        i + enc_finished(f).len() <= d.len(),
        d.subrange(i, i + enc_finished(f).len() as int) == enc_finished(f),
    ensures
        dec_finished(d, i) == Some((f, i + enc_finished(f).len())),
{
    assert(enc_ts(f.time_stamp).len() == 11);
    lemma_split_concat(d, i, f.session_id + enc_ts(f.time_stamp), enc_u16(f.result));
    lemma_split_concat(d, i, f.session_id, enc_ts(f.time_stamp));
    assert(dec_sid(d, i) == Some((f.session_id, i + 16)));
    lemma_dec_ts_at(d, i + 16, f.time_stamp);
    lemma_dec_u16_at(d, i + 27, f.result);
    let got = dec_finished(d, i).unwrap().0;
    assert(got.session_id == f.session_id && got.time_stamp == f.time_stamp && got.result
        == f.result);
}

/// Decoding inverts encoding: every well-formed message that fits one
/// datagram comes back unchanged from its own bytes.
pub proof fn lemma_codec_round_trip(m: MessageView)
    requires
        m.valid(),
        encodable(m),
        spec_encode(m).len() <= MAX_MESSAGE as nat,
    ensures
        spec_decode(spec_encode(m)) == Some(m),
{
    let d = spec_encode(m);
    match m {
        MessageView::Stop => {
            assert(d.len() == 1 && d[0] == 0);
        },
        MessageView::Disable(sid) => {
            assert(d.len() == 17 && d[0] == 1);
            assert(d.subrange(1, 17) =~= sid);
            assert(dec_sid(d, 1) == Some((sid, 17int)));
        },
        MessageView::Enable(sid) => {
            assert(d.len() == 17 && d[0] == 2);
            assert(d.subrange(1, 17) =~= sid);
            assert(dec_sid(d, 1) == Some((sid, 17int)));
        },
        MessageView::CommandStart(c) => {
            assert(d.len() == 1 + enc_start(c).len() && d[0] == 3);
            assert(d.subrange(1, d.len() as int) =~= enc_start(c));
            lemma_dec_start_at(d, 1, c);
        },
        MessageView::CommandFinished(f) => {
            assert(d.len() == 1 + enc_finished(f).len() && d[0] == 4);
            assert(d.subrange(1, d.len() as int) =~= enc_finished(f));
            lemma_dec_finished_at(d, 1, f);
        },
    }
}

/// Every string of a start event fits its length prefix.
pub open spec fn start_encodable(c: CommandStartView) -> bool {
    str_bytes(c.command).len() < 0x100000000 && str_bytes(c.pwd).len() < 0x100000000 && str_bytes(
        c.user,
    ).len() < 0x100000000 && str_bytes(c.hostname).len() < 0x100000000
}

/// The value form a start event is cached under while its command runs.
pub fn encode_start_value(c: &CommandStart) -> (r: Option<Vec<u8>>)
    ensures
        r matches Some(v) ==> v@ == enc_start(c@),
        r is Some <==> start_encodable(c@),
{
    let mut out: Vec<u8> = Vec::new();
    if !push_str(&mut out, &c.command) {
        return None;
    }
    if !push_str(&mut out, &c.pwd) {
        return None;
    }
    push_sid(&mut out, &c.session_id);
    push_ts(&mut out, &c.time_stamp);
    if !push_str(&mut out, &c.user) {
        return None;
    }
    if !push_str(&mut out, &c.hostname) {
        return None;
    }
    proof {
        assert(out@ =~= enc_start(c@));
    }
    Some(out)
}

/// Reads a cached start event back; the bytes must be exactly one
/// encoded start event.
pub fn decode_start_value(d: &Vec<u8>) -> (r: Option<CommandStart>)
    ensures
        r matches Some(c) ==> dec_start(d@, 0) == Some((c@, d@.len() as int)),
        r is None ==> (match dec_start(d@, 0) {
            Some(p) => p.1 != d@.len(),
            None => true,
        }),
{
    match read_start(d, 0) {
        Some((c, j)) => {
            if j == d.len() {
                Some(c)
            } else {
                None
            }
        },
        None => None,
    }
}

/// An encoded start event reads back as itself.
pub proof fn lemma_start_value_round_trip(c: CommandStartView)
    requires
        c.valid(),
        start_encodable(c),
    ensures
        dec_start(enc_start(c), 0) == Some((c, enc_start(c).len() as int)),
{
    let d = enc_start(c);
    assert(d.subrange(0, d.len() as int) =~= d);
    lemma_dec_start_at(d, 0, c);
}

proof fn lemma_join_concat(d: Seq<u8>, a: int, b: int, c: int)
    requires
        0 <= a <= b <= c <= d.len(),
    ensures
        d.subrange(a, c) == d.subrange(a, b) + d.subrange(b, c),
{
    assert(d.subrange(a, c) =~= d.subrange(a, b) + d.subrange(b, c));
}

proof fn lemma_dec_u16_sound(d: Seq<u8>, i: int)
    requires
        dec_u16(d, i) is Some,
    ensures
        ({
            let (x, j) = dec_u16(d, i).unwrap();
            j == i + 2 && d.subrange(i, j) == enc_u16(x)
        }),
{
    let (x, j) = dec_u16(d, i).unwrap();
    vstd::arithmetic::div_mod::lemma_fundamental_div_mod_converse(
        x as int,
        256,
        d[i + 1] as int,
        d[i] as int,
    );
    assert(d.subrange(i, j) =~= enc_u16(x));
}

proof fn lemma_dec_u32_sound(d: Seq<u8>, i: int)
    requires
        dec_u32(d, i) is Some,
    ensures
        ({
            let (x, j) = dec_u32(d, i).unwrap();
            j == i + 4 && d.subrange(i, j) == enc_u32(x)
        }),
{
    let (x, j) = dec_u32(d, i).unwrap();
    let q1 = d[i + 1] + 256 * d[i + 2] + 65536 * d[i + 3];
    vstd::arithmetic::div_mod::lemma_fundamental_div_mod_converse(x as int, 256, q1, d[i] as int);
    let q2 = d[i + 2] + 256 * d[i + 3];
    vstd::arithmetic::div_mod::lemma_fundamental_div_mod_converse(q1 as int, 256, q2, d[i + 1] as int);
    vstd::arithmetic::div_mod::lemma_fundamental_div_mod_converse(
        q2 as int,
        256,
        d[i + 3] as int,
        d[i + 2] as int,
    );
    vstd::arithmetic::div_mod::lemma_div_denominator(x as int, 256, 256);
    vstd::arithmetic::div_mod::lemma_div_denominator(x as int, 65536, 256);
    assert((x as int / 256) % 256 == d[i + 1]);
    assert((x as int / 65536) % 256 == d[i + 2]);
    assert(x as int / 16777216 == d[i + 3]);
    assert(d.subrange(i, j) =~= enc_u32(x));
}

proof fn lemma_dec_ts_sound(d: Seq<u8>, i: int)
    requires
        dec_ts(d, i) is Some,
    ensures
        ({
            let (t, j) = dec_ts(d, i).unwrap();
            j == i + 11 && d.subrange(i, j) == enc_ts(t) && t.valid()
        }),
{
    let (t, j) = dec_ts(d, i).unwrap();
    vstd::arithmetic::div_mod::lemma_fundamental_div_mod_converse(
        t.year as int,
        256,
        d[i + 1] as int,
        d[i] as int,
    );
    let x = t.nanos;
    let q1 = d[i + 8] + 256 * d[i + 9] + 65536 * d[i + 10];
    vstd::arithmetic::div_mod::lemma_fundamental_div_mod_converse(
        x as int,
        256,
        q1,
        d[i + 7] as int,
    );
    let q2 = d[i + 9] + 256 * d[i + 10];
    vstd::arithmetic::div_mod::lemma_fundamental_div_mod_converse(q1 as int, 256, q2, d[i + 8] as int);
    vstd::arithmetic::div_mod::lemma_fundamental_div_mod_converse(
        q2 as int,
        256,
        d[i + 10] as int,
        d[i + 9] as int,
    );
    vstd::arithmetic::div_mod::lemma_div_denominator(x as int, 256, 256);
    vstd::arithmetic::div_mod::lemma_div_denominator(x as int, 65536, 256);
    assert((x as int / 256) % 256 == d[i + 8]);
    assert((x as int / 65536) % 256 == d[i + 9]);
    assert(x as int / 16777216 == d[i + 10]);
    assert(d.subrange(i, j) =~= enc_ts(t));
}

proof fn lemma_dec_str_sound(d: Seq<u8>, i: int)
    requires
        dec_str(d, i) is Some,
    ensures
        ({
            let (s, j) = dec_str(d, i).unwrap();
            i <= j <= d.len() && d.subrange(i, j) == enc_str(s) && str_bytes(s).len()
                < 0x100000000 && enc_str(s).len() == j - i
        }),
{
    let (s, j) = dec_str(d, i).unwrap();
    let (n, j0) = dec_u32(d, i).unwrap();
    lemma_dec_u32_sound(d, i);
    let bytes = d.subrange(j0, j0 + n);
    vstd::utf8::decode_utf8_encode_utf8(bytes);
    assert(str_bytes(s) == bytes);
    lemma_join_concat(d, i, j0, j);
    assert(d.subrange(i, j) == enc_u32(n) + bytes);
}

proof fn lemma_dec_start_sound(d: Seq<u8>, i: int)
    requires
        dec_start(d, i) is Some,
    ensures
        ({
            let (c, j) = dec_start(d, i).unwrap();
            i <= j <= d.len() && d.subrange(i, j) == enc_start(c) && c.valid() && str_bytes(
                c.command,
            ).len() < 0x100000000 && str_bytes(c.pwd).len() < 0x100000000 && str_bytes(
                c.user,
            ).len() < 0x100000000 && str_bytes(c.hostname).len() < 0x100000000
        }),
{
    let (c, j) = dec_start(d, i).unwrap();
    let (command, i1) = dec_str(d, i).unwrap();
    let (pwd, i2) = dec_str(d, i1).unwrap();
    let (sid, i3) = dec_sid(d, i2).unwrap();
    let (ts, i4) = dec_ts(d, i3).unwrap();
    let (user, i5) = dec_str(d, i4).unwrap();
    let (hostname, i6) = dec_str(d, i5).unwrap();
    lemma_dec_str_sound(d, i);
    lemma_dec_str_sound(d, i1);
    lemma_dec_ts_sound(d, i3);
    lemma_dec_str_sound(d, i4);
    lemma_dec_str_sound(d, i5);
    lemma_join_concat(d, i, i1, i2);
    lemma_join_concat(d, i, i2, i3);
    lemma_join_concat(d, i, i3, i4);
    lemma_join_concat(d, i, i4, i5);
    lemma_join_concat(d, i, i5, i6);
    assert(d.subrange(i2, i3) == sid);
    assert(d.subrange(i, j) == enc_str(command) + enc_str(pwd) + sid + enc_ts(ts) + enc_str(user)
        + enc_str(hostname));
}

proof fn lemma_dec_finished_sound(d: Seq<u8>, i: int)
    requires
        dec_finished(d, i) is Some,
    ensures
        ({
            let (f, j) = dec_finished(d, i).unwrap();
            i <= j <= d.len() && d.subrange(i, j) == enc_finished(f) && f.valid()
        }),
{
    let (f, j) = dec_finished(d, i).unwrap();
    let (sid, i1) = dec_sid(d, i).unwrap();
    let (ts, i2) = dec_ts(d, i1).unwrap();
    lemma_dec_ts_sound(d, i1);
    lemma_dec_u16_sound(d, i2);
    lemma_join_concat(d, i, i1, i2);
    lemma_join_concat(d, i, i2, j);
    assert(d.subrange(i, i1) == sid);
    assert(d.subrange(i, j) == sid + enc_ts(ts) + enc_u16(f.result));
}

/// The codec is bit-exact: whatever decodes is well formed and is the
/// one and only encoding of the message it decodes to.
pub proof fn lemma_decode_sound(d: Seq<u8>)
    requires
        spec_decode(d) is Some,
    ensures
        ({
            let m = spec_decode(d).unwrap();
            d == spec_encode(m) && m.valid() && encodable(m)
        }),
{
    let m = spec_decode(d).unwrap();
    match m {
        MessageView::Stop => {
            assert(d =~= seq![0u8]);
        },
        MessageView::Disable(sid) => {
            assert(d =~= seq![1u8] + d.subrange(1, 17));
        },
        MessageView::Enable(sid) => {
            assert(d =~= seq![2u8] + d.subrange(1, 17));
        },
        MessageView::CommandStart(c) => {
            lemma_dec_start_sound(d, 1);
            let j = dec_start(d, 1).unwrap().1;
            assert(j == d.len());
            assert(d =~= seq![3u8] + d.subrange(1, j));
        },
        MessageView::CommandFinished(f) => {
            lemma_dec_finished_sound(d, 1);
            let j = dec_finished(d, 1).unwrap().1;
            assert(j == d.len());
            assert(d =~= seq![4u8] + d.subrange(1, j));
        },
    }
}

} // verus!
