use hstdb::codec::{decode, encode, CodecError, MAX_MESSAGE};
use hstdb::message::{CommandFinished, CommandStart, Message};
use hstdb::session::SessionId;
use hstdb::timestamp::Timestamp;

fn sid() -> SessionId {
    SessionId { bytes: [0x11; 16] }
}

fn ts(second: u8, nanos: u32) -> Timestamp {
    Timestamp { year: 2020, month: 1, day: 1, hour: 0, minute: 0, second, nanos }
}

fn start(command: &str) -> CommandStart {
    CommandStart {
        command: command.to_string(),
        pwd: "/tmp".to_string(),
        session_id: sid(),
        time_stamp: ts(0, 0),
        user: "u".to_string(),
        hostname: "h".to_string(),
    }
}

#[test]
fn codec_round_trip_stop() {
    let v = encode(&Message::Stop).unwrap();
    assert_eq!(v, vec![0u8]);
    assert_eq!(decode(&v).unwrap(), Message::Stop);
}

#[test]
fn codec_round_trip_disable_enable() {
    let v = encode(&Message::Disable(sid())).unwrap();
    assert_eq!(v.len(), 17);
    assert_eq!(decode(&v).unwrap(), Message::Disable(sid()));
    let v = encode(&Message::Enable(sid())).unwrap();
    assert_eq!(decode(&v).unwrap(), Message::Enable(sid()));
}

#[test]
fn codec_round_trip_start() {
    let m = Message::CommandStart(start("ls -la \u{00e9}\u{6f22}"));
    let v = encode(&m).unwrap();
    assert_eq!(decode(&v).unwrap(), m);
}

#[test]
fn codec_round_trip_finished() {
    let m = Message::CommandFinished(CommandFinished {
        session_id: sid(),
        time_stamp: ts(1, 123456789),
        result: 42,
    });
    let v = encode(&m).unwrap();
    assert_eq!(decode(&v).unwrap(), m);
}

#[test]
fn decode_rejects_garbage() {
    assert!(decode(&vec![]).is_err());
    assert!(decode(&vec![9u8]).is_err());
    assert!(decode(&vec![1u8, 2u8]).is_err());
    let mut v = encode(&Message::Stop).unwrap();
    v.push(0);
    assert!(decode(&v).is_err());
}

#[test]
fn message_size_boundary() {
    // tag 1 + command (4 + n) + pwd (4 + 4) + session 16 + timestamp 11
    // + user (4 + 1) + hostname (4 + 1): 50 bytes around the command
    let m = Message::CommandStart(start(&"a".repeat(MAX_MESSAGE - 50)));
    let v = encode(&m).unwrap();
    assert_eq!(v.len(), MAX_MESSAGE);
    assert_eq!(decode(&v).unwrap(), m);

    let m2 = Message::CommandStart(start(&"a".repeat(MAX_MESSAGE - 49)));
    let v2 = encode(&m2).unwrap();
    assert_eq!(v2.len(), MAX_MESSAGE + 1);
    assert_eq!(decode(&v2), Err(CodecError::Oversize));

    // what a receiver with a full buffer would see: the truncated prefix
    let truncated: Vec<u8> = v2[..MAX_MESSAGE].to_vec();
    assert!(decode(&truncated).is_err());
}
