use hstdb::entry::Entry;
use hstdb::filter::Filter;
use hstdb::session::SessionId;
use hstdb::store;
use hstdb::timestamp::Timestamp;

fn ts(hour: u8, minute: u8, second: u8) -> Timestamp {
    Timestamp { year: 2020, month: 1, day: 1, hour, minute, second, nanos: 0 }
}

fn sid(b: u8) -> SessionId {
    SessionId { bytes: [b; 16] }
}

fn entry(cmd: &str, host: &str, second: u8, result: u16) -> Entry {
    Entry {
        time_finished: ts(0, 0, second),
        time_start: ts(0, 0, 0),
        hostname: host.to_string(),
        command: cmd.to_string(),
        pwd: "/tmp".to_string(),
        result,
        session_id: sid(0x11),
        user: "u".to_string(),
    }
}

#[test]
fn dot_filename_with_extension() {
    let folder_path = std::path::PathBuf::from("/tmp");
    let hostname = "test.test.test";
    let expected = std::path::PathBuf::from(format!("/tmp/{}.csv", hostname));

    let bad = folder_path.join(hostname).with_extension("csv");
    let good = folder_path.join(store::index_file_name(hostname));

    assert_ne!(bad, expected);
    assert_eq!(good, expected);
}

#[test]
fn existing_empty_file() {
    let st = store::new("/data".to_string());
    let entries = st.get_entries(&vec!["".to_string()], &Filter::default()).unwrap();
    assert_eq!(entries.len(), 0);
}

#[test]
fn store_round_trip() {
    let st = store::new("/data".to_string());
    let e = entry("ls", "h", 1, 0);
    let (path, content) = st.add(&e, false).unwrap();
    assert_eq!(path, "/data/h.csv");
    let read = st.get_entries(&vec![content.clone()], &Filter::default()).unwrap();
    assert_eq!(read.len(), 1);
    assert_eq!(read[0], e);

    let e2 = entry("pwd", "h", 2, 0);
    let (_path2, row2) = st.add(&e2, true).unwrap();
    let full = format!("{}{}", content, row2);
    let read2 = st.get_entries(&vec![full], &Filter::default()).unwrap();
    assert_eq!(read2.len(), 2);
    assert_eq!(read2[0], e);
    assert_eq!(read2[1], e2);
}

#[test]
fn store_round_trip_quoted_fields() {
    let st = store::new("/data".to_string());
    let mut e = entry("echo \"a,b\"\nwc -l", "h", 1, 0);
    e.pwd = "/tmp/dir with, comma".to_string();
    let (_path, content) = st.add(&e, false).unwrap();
    let read = st.get_entries(&vec![content], &Filter::default()).unwrap();
    assert_eq!(read.len(), 1);
    assert_eq!(read[0], e);
}

#[test]
fn empty_command_not_persisted() {
    let st = store::new("/data".to_string());
    let e = entry("", "h", 1, 0);
    assert!(st.add(&e, false).is_none());
    assert!(st.add(&e, true).is_none());
}

#[test]
fn hostname_with_dot_path() {
    let st = store::new("/data".to_string());
    let e = entry("ls", "a.b.c", 1, 0);
    let (path, _content) = st.add(&e, false).unwrap();
    assert_eq!(path, "/data/a.b.c.csv");
    assert!(path.ends_with("a.b.c.csv"));
}

#[test]
fn get_entries_sorted_ascending() {
    let st = store::new("/data".to_string());
    let late = entry("late", "h", 9, 0);
    let early = entry("early", "h", 1, 0);
    let mid = entry("mid", "h", 5, 0);
    let (_p, c1) = st.add(&late, false).unwrap();
    let (_p, c2) = st.add(&early, true).unwrap();
    let (_p, c3) = st.add(&mid, true).unwrap();
    let content = format!("{}{}{}", c1, c2, c3);
    let read = st.get_entries(&vec![content], &Filter::default()).unwrap();
    assert_eq!(read.len(), 3);
    assert_eq!(read[0].command, "early");
    assert_eq!(read[1].command, "mid");
    assert_eq!(read[2].command, "late");
}

#[test]
fn get_entries_count_keeps_last() {
    let st = store::new("/data".to_string());
    let a = entry("a", "h", 1, 0);
    let b = entry("b", "h", 2, 0);
    let c = entry("c", "h", 3, 0);
    let (_p, c1) = st.add(&a, false).unwrap();
    let (_p, c2) = st.add(&b, true).unwrap();
    let (_p, c3) = st.add(&c, true).unwrap();
    let content = format!("{}{}{}", c1, c2, c3);
    let filter = Filter::default().count(2);
    let read = st.get_entries(&vec![content], &filter).unwrap();
    assert_eq!(read.len(), 2);
    assert_eq!(read[0].command, "b");
    assert_eq!(read[1].command, "c");
}

#[test]
fn get_entries_bad_content_is_error() {
    let st = store::new("/data".to_string());
    let content = "time_finished,time_start,hostname,command,pwd,result,session_id,user\nnot,a,valid,row,x,y,z,w\n".to_string();
    assert!(st.get_entries(&vec![content], &Filter::default()).is_err());
}

#[test]
fn get_entries_filter_failed_and_status() {
    let st = store::new("/data".to_string());
    let ok = entry("fine", "h", 1, 0);
    let bad = entry("broken", "h", 2, 7);
    let (_p, c1) = st.add(&ok, false).unwrap();
    let (_p, c2) = st.add(&bad, true).unwrap();
    let content = format!("{}{}", c1, c2);

    let only_zero = Filter::default().filter_failed(true);
    let read = st.get_entries(&vec![content.clone()], &only_zero).unwrap();
    assert_eq!(read.len(), 1);
    assert_eq!(read[0].command, "fine");

    let only_seven = Filter::default().find_status(Some(7));
    let read = st.get_entries(&vec![content], &only_seven).unwrap();
    assert_eq!(read.len(), 1);
    assert_eq!(read[0].command, "broken");
}
