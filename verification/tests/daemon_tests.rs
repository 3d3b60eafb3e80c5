use hstdb::db::SessionDb;
use hstdb::filter::Filter;
use hstdb::message::{CommandFinished, CommandStart, Message};
use hstdb::run;
use hstdb::server::{process, Action, ServerError};
use hstdb::session::SessionId;
use hstdb::store;
use hstdb::timestamp::Timestamp;

fn sid() -> SessionId {
    SessionId::from_text("11111111-1111-1111-1111-111111111111").unwrap()
}

fn ts(second: u8) -> Timestamp {
    Timestamp { year: 2020, month: 1, day: 1, hour: 0, minute: 0, second, nanos: 0 }
}

fn start(command: &str) -> CommandStart {
    CommandStart {
        command: command.to_string(),
        pwd: "/tmp".to_string(),
        session_id: sid(),
        time_stamp: ts(0),
        user: "u".to_string(),
        hostname: "h".to_string(),
    }
}

fn finish() -> CommandFinished {
    CommandFinished { session_id: sid(), time_stamp: ts(1), result: 0 }
}

fn open_db(name: &str) -> SessionDb {
    match SessionDb::open(&format!("/tmp/hstdb_daemon_tests/{}", name)) {
        Ok(db) => db,
        Err(e) => panic!("cannot open test database: {:?}", e),
    }
}

#[test]
fn start_finish_pair_appends_one_row() {
    let mut db = open_db("pair");
    let start_bytes = encode_msg(Message::CommandStart(start("ls")));
    match process(&mut db, &start_bytes) {
        Ok(Action::Done) => {},
        other => panic!("unexpected outcome: {:?}", other),
    }
    let finish_bytes = encode_msg(Message::CommandFinished(finish()));
    let entry = match process(&mut db, &finish_bytes) {
        Ok(Action::Record(e)) => e,
        other => panic!("unexpected outcome: {:?}", other),
    };
    let st = store::new("/data".to_string());
    let (path, content) = st.add(&entry, false).unwrap();
    assert_eq!(path, "/data/h.csv");
    let read = st.get_entries(&vec![content], &Filter::default()).unwrap();
    assert_eq!(read.len(), 1);
    assert_eq!(read[0].command, "ls");
    assert_eq!(read[0].result, 0);
    assert_eq!(
        read[0].session_id.to_text(),
        "11111111-1111-1111-1111-111111111111"
    );
}

#[test]
fn empty_command_writes_nothing() {
    let mut db = open_db("empty");
    let start_bytes = encode_msg(Message::CommandStart(start("")));
    assert!(matches!(process(&mut db, &start_bytes), Ok(Action::Done)));
    let finish_bytes = encode_msg(Message::CommandFinished(finish()));
    let entry = match process(&mut db, &finish_bytes) {
        Ok(Action::Record(e)) => e,
        other => panic!("unexpected outcome: {:?}", other),
    };
    let st = store::new("/data".to_string());
    assert!(st.add(&entry, false).is_none());
}

#[test]
fn trailing_newline_is_trimmed() {
    let mut db = open_db("newline");
    let start_bytes = encode_msg(Message::CommandStart(start("ls\n")));
    assert!(matches!(process(&mut db, &start_bytes), Ok(Action::Done)));
    let finish_bytes = encode_msg(Message::CommandFinished(finish()));
    let entry = match process(&mut db, &finish_bytes) {
        Ok(Action::Record(e)) => e,
        other => panic!("unexpected outcome: {:?}", other),
    };
    assert_eq!(entry.command, "ls");
}

#[test]
fn unmatched_finish_is_dropped() {
    let mut db = open_db("unmatched");
    let finish_bytes = encode_msg(Message::CommandFinished(finish()));
    match process(&mut db, &finish_bytes) {
        Err(ServerError::SessionCommandNotStarted) => {},
        other => panic!("unexpected outcome: {:?}", other),
    }
}

#[test]
fn disabled_session_records_nothing() {
    let mut db = open_db("disabled");
    let disable_bytes = run::disable(&sid());
    assert!(matches!(process(&mut db, &disable_bytes), Ok(Action::Done)));
    let start_bytes = encode_msg(Message::CommandStart(start("ls")));
    match process(&mut db, &start_bytes) {
        Err(ServerError::DisabledSession(s)) => assert_eq!(s, sid()),
        other => panic!("unexpected outcome: {:?}", other),
    }
    let finish_bytes = encode_msg(Message::CommandFinished(finish()));
    match process(&mut db, &finish_bytes) {
        Err(ServerError::DisabledSession(s)) => assert_eq!(s, sid()),
        other => panic!("unexpected outcome: {:?}", other),
    }
    // enable again: a fresh pair records normally
    let enable_bytes = run::enable(&sid());
    assert!(matches!(process(&mut db, &enable_bytes), Ok(Action::Done)));
    assert!(matches!(
        process(&mut db, &encode_msg(Message::CommandStart(start("ls")))),
        Ok(Action::Done)
    ));
    assert!(matches!(
        process(&mut db, &encode_msg(Message::CommandFinished(finish()))),
        Ok(Action::Record(_))
    ));
}

#[test]
fn second_start_for_session_is_dropped() {
    let mut db = open_db("double_start");
    let start_bytes = encode_msg(Message::CommandStart(start("ls")));
    assert!(matches!(process(&mut db, &start_bytes), Ok(Action::Done)));
    match process(&mut db, &start_bytes) {
        Err(ServerError::SessionCommandAlreadyStarted) => {},
        other => panic!("unexpected outcome: {:?}", other),
    }
    // drain the pending start so reruns of this test start clean
    let finish_bytes = encode_msg(Message::CommandFinished(finish()));
    assert!(matches!(process(&mut db, &finish_bytes), Ok(Action::Record(_))));
}

#[test]
fn stop_message_shuts_down() {
    let mut db = open_db("stop");
    let stop_bytes = run::stop();
    assert!(matches!(process(&mut db, &stop_bytes), Ok(Action::Shutdown)));
}

fn encode_msg(m: Message) -> Vec<u8> {
    hstdb::codec::encode(&m).unwrap()
}
