use hstdb::entry::Entry;
use hstdb::filter::{path_starts_with, Filter, Pattern};
use hstdb::session::SessionId;
use hstdb::store;
use hstdb::timestamp::Timestamp;

#[test]
fn filter_command() {
    let cases = vec![
        ("tr -d ' '", true),
        ("echo 'tr'", false),
        ("echo 'test test' | tr -d ' '", true),
        ("echo 'test test' | echo tr -d ' '", false),
        ("echo 'test test' | tr -d ' ' | tr -d 't'", true),
        ("", false),
        ("tr", true),
    ];
    let check_command = "tr";

    for (entry_command, result) in cases {
        assert_eq!(hstdb::filter::filter_command(entry_command, check_command), result);
    }
}

#[test]
fn path_prefix_respects_components() {
    assert!(path_starts_with("/tmp/work", "/tmp"));
    assert!(path_starts_with("/tmp", "/tmp"));
    assert!(path_starts_with("/tmp/work", "/tmp/"));
    assert!(!path_starts_with("/tmpx", "/tmp"));
    assert!(!path_starts_with("/tmp", "/tmp/work"));
    assert!(path_starts_with("/tmp/work", "/"));
    assert!(path_starts_with("/tmp/work", ""));
    assert!(!path_starts_with("/tmp/work", "tmp"));
    assert!(!path_starts_with("tmp/work", "/tmp"));
    assert!(path_starts_with("tmp/work", "tmp"));
}

fn entry(cmd: &str, pwd: &str, second: u8) -> Entry {
    Entry {
        time_finished: Timestamp {
            year: 2020,
            month: 1,
            day: 1,
            hour: 0,
            minute: 0,
            second,
            nanos: 0,
        },
        time_start: Timestamp {
            year: 2020,
            month: 1,
            day: 1,
            hour: 0,
            minute: 0,
            second: 0,
            nanos: 0,
        },
        hostname: "h".to_string(),
        command: cmd.to_string(),
        pwd: pwd.to_string(),
        result: 0,
        session_id: SessionId { bytes: [0x22; 16] },
        user: "u".to_string(),
    }
}

fn contents(entries: &[Entry]) -> String {
    let st = store::new("/data".to_string());
    let mut out = String::new();
    let mut first = true;
    for e in entries {
        let (_p, c) = st.add(e, !first).unwrap();
        out.push_str(&c);
        first = false;
    }
    out
}

#[test]
fn filter_by_command_token() {
    let st = store::new("/data".to_string());
    let content = contents(&[
        entry("grep foo bar", "/tmp", 1),
        entry("ls | grep x", "/tmp", 2),
        entry("echo grep", "/tmp", 3),
    ]);
    let f = Filter::default().command(Some("grep".to_string()), None, None);
    let read = st.get_entries(&vec![content], &f).unwrap();
    assert_eq!(read.len(), 2);
    assert_eq!(read[0].command, "grep foo bar");
    assert_eq!(read[1].command, "ls | grep x");
}

#[test]
fn filter_by_directory() {
    let st = store::new("/data".to_string());
    let content = contents(&[
        entry("a", "/home/me/work", 1),
        entry("b", "/home/me", 2),
        entry("c", "/etc", 3),
    ]);
    let subtree = Filter::default().directory(Some("/home/me".to_string()), false);
    let read = st.get_entries(&vec![content.clone()], &subtree).unwrap();
    assert_eq!(read.len(), 2);

    let strict = Filter::default().directory(Some("/home/me".to_string()), true);
    let read = st.get_entries(&vec![content], &strict).unwrap();
    assert_eq!(read.len(), 1);
    assert_eq!(read[0].command, "b");
}

#[test]
fn filter_by_command_text_patterns() {
    let st = store::new("/data".to_string());
    let content = contents(&[entry("make build", "/tmp", 1), entry("make test", "/tmp", 2)]);
    let keep = Pattern::compile("test$").unwrap();
    let f = Filter::default().command(None, Some(keep), None);
    let read = st.get_entries(&vec![content.clone()], &f).unwrap();
    assert_eq!(read.len(), 1);
    assert_eq!(read[0].command, "make test");

    let drop = Pattern::compile("test$").unwrap();
    let f = Filter::default().command(None, None, Some(drop));
    let read = st.get_entries(&vec![content], &f).unwrap();
    assert_eq!(read.len(), 1);
    assert_eq!(read[0].command, "make build");
}

#[test]
fn filter_by_session_pattern() {
    let st = store::new("/data".to_string());
    let content = contents(&[entry("only", "/tmp", 1)]);
    let hit = Pattern::compile("^2222").unwrap();
    let f = Filter::default().session(Some(hit));
    let read = st.get_entries(&vec![content.clone()], &f).unwrap();
    assert_eq!(read.len(), 1);

    let miss = Pattern::compile("^9999").unwrap();
    let f = Filter::default().session(Some(miss));
    let read = st.get_entries(&vec![content], &f).unwrap();
    assert_eq!(read.len(), 0);
}

#[test]
fn invalid_pattern_is_rejected() {
    assert!(Pattern::compile("(unclosed").is_none());
}

#[test]
fn filter_hostname_selection() {
    let f = Filter::default().hostname(None, false, "here".to_string());
    assert_eq!(f.get_hostname().unwrap(), "here");
    let f = Filter::default().hostname(Some("there".to_string()), false, "here".to_string());
    assert_eq!(f.get_hostname().unwrap(), "there");
    let f = Filter::default().hostname(Some("there".to_string()), true, "here".to_string());
    assert!(f.get_hostname().is_none());
}
