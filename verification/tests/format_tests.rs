use hstdb::config::{Config, LogLevel};
use hstdb::entry::{clean_command, trim_str, Entry};
use hstdb::message::{CommandFinished, CommandStart};
use hstdb::run;
use hstdb::session::SessionId;
use hstdb::text::parse_u16;
use hstdb::timestamp::Timestamp;

#[test]
fn session_text_round_trip() {
    let sid = SessionId { bytes: [0xab; 16] };
    let text = sid.to_text();
    assert_eq!(text, "abababab-abab-abab-abab-abababababab");
    assert_eq!(SessionId::from_text(&text).unwrap(), sid);
    assert_eq!(
        SessionId::from_text("ABABABAB-ABAB-ABAB-ABAB-ABABABABABAB").unwrap(),
        sid
    );
    assert!(SessionId::from_text("abababab-abab-abab-abab-ababababab").is_none());
    assert!(SessionId::from_text("abababababab-abab-abab-abababababab").is_none());
    assert!(SessionId::from_text("").is_none());
}

#[test]
fn timestamp_round_trip() {
    let t = Timestamp { year: 2020, month: 1, day: 1, hour: 0, minute: 0, second: 1, nanos: 0 };
    let text = t.to_rfc3339();
    assert_eq!(text, "2020-01-01T00:00:01Z");
    assert_eq!(Timestamp::parse_rfc3339(&text).unwrap(), t);

    let t = Timestamp {
        year: 2024,
        month: 2,
        day: 29,
        hour: 23,
        minute: 59,
        second: 59,
        nanos: 123456789,
    };
    let text = t.to_rfc3339();
    assert_eq!(text, "2024-02-29T23:59:59.123456789Z");
    assert_eq!(Timestamp::parse_rfc3339(&text).unwrap(), t);
}

#[test]
fn timestamp_rejects_invalid_dates() {
    assert!(Timestamp::parse_rfc3339("2023-02-29T00:00:00Z").is_none());
    assert!(Timestamp::parse_rfc3339("2020-13-01T00:00:00Z").is_none());
    assert!(Timestamp::parse_rfc3339("2020-01-01 00:00:00Z").is_none());
    assert!(Timestamp::parse_rfc3339("2020-01-01T00:00:00").is_none());
}

#[test]
fn result_code_round_trip() {
    assert_eq!(parse_u16("0").unwrap(), 0);
    assert_eq!(parse_u16("65535").unwrap(), 65535);
    assert!(parse_u16("65536").is_none());
    assert!(parse_u16("007").is_none());
    assert!(parse_u16("").is_none());
    assert!(parse_u16("12a").is_none());
}

#[test]
fn command_trimming() {
    assert_eq!(trim_str("  hi there \n"), "hi there");
    assert_eq!(clean_command("ls \n\t"), "ls");
    assert_eq!(clean_command("ls\\n"), "ls");
    assert_eq!(clean_command("ls\\r\\n"), "ls");
    assert_eq!(clean_command("a\\nb"), "a\\nb");
    assert_eq!(clean_command("\\n"), "");
}

#[test]
fn entry_from_messages_cleans_fields() {
    let start = CommandStart {
        command: "Test\\nTest\\nTest      ".to_string(),
        pwd: "/tmp".to_string(),
        session_id: SessionId { bytes: [0x11; 16] },
        time_stamp: Timestamp {
            year: 2020,
            month: 1,
            day: 1,
            hour: 0,
            minute: 0,
            second: 0,
            nanos: 0,
        },
        user: " testuser ".to_string(),
        hostname: "\thost\n".to_string(),
    };
    let finish = CommandFinished {
        session_id: SessionId { bytes: [0x11; 16] },
        time_stamp: Timestamp {
            year: 2020,
            month: 1,
            day: 1,
            hour: 0,
            minute: 0,
            second: 2,
            nanos: 0,
        },
        result: 3,
    };
    let entry = Entry::from_messages(start, &finish);
    assert_eq!(entry.command, "Test\\nTest\\nTest");
    assert_eq!(entry.user, "testuser");
    assert_eq!(entry.hostname, "host");
    assert_eq!(entry.pwd, "/tmp");
    assert_eq!(entry.result, 3);
}

#[test]
fn display_helpers() {
    assert!(hstdb::run::Display::should_show(true).is_show());
    assert!(!hstdb::run::Display::should_show(false).is_show());
    assert!(!hstdb::run::Display::should_hide(true).is_show());
    assert!(hstdb::run::Display::should_hide(false).is_show());
    assert!(hstdb::run::RunState::Stop.is_stop());
    assert!(!hstdb::run::RunState::Continue.is_stop());
}

#[test]
fn format_command_display() {
    assert_eq!(run::format_command(" ls \n", true), "ls");
    assert_eq!(run::format_command("a\nb\n", false), "a\\nb");
}

#[test]
fn format_uuid_prefix() {
    let sid = SessionId::from_text("deadbeef-1111-1111-1111-111111111111").unwrap();
    assert_eq!(run::format_uuid(&sid), "dead");
}

#[test]
fn zsh_add_history_skips_space_prefixed() {
    let config = Config::default();
    assert_eq!(config.log_level, LogLevel::Warn);
    assert!(run::skip_command(true, " ls"));
    assert!(!run::skip_command(true, "ls"));
    assert!(!run::skip_command(false, " ls"));
    let start = CommandStart {
        command: " secret".to_string(),
        pwd: "/tmp".to_string(),
        session_id: SessionId { bytes: [0x11; 16] },
        time_stamp: Timestamp {
            year: 2020,
            month: 1,
            day: 1,
            hour: 0,
            minute: 0,
            second: 0,
            nanos: 0,
        },
        user: "u".to_string(),
        hostname: "h".to_string(),
    };
    assert!(run::zsh_add_history(&config, start.clone()).is_none());
    let mut config = Config::default();
    config.ignore_space = false;
    assert!(run::zsh_add_history(&config, start).is_some());
    let config = Config::default();
    let mut plain = CommandStart {
        command: "visible".to_string(),
        pwd: "/tmp".to_string(),
        session_id: SessionId { bytes: [0x11; 16] },
        time_stamp: Timestamp {
            year: 2020,
            month: 1,
            day: 1,
            hour: 0,
            minute: 0,
            second: 0,
            nanos: 0,
        },
        user: "u".to_string(),
        hostname: "h".to_string(),
    };
    let bytes = run::zsh_add_history(&config, plain.clone()).unwrap();
    plain.command = "visible".to_string();
    assert_eq!(
        hstdb::codec::decode(&bytes).unwrap(),
        hstdb::message::Message::CommandStart(plain)
    );
}
