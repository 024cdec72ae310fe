use std::fmt::Write;

use zero_log::buffer::StackBuffer;
use zero_log::event::log_event;
use zero_log::sink::{MemorySink, StdoutSink};
use zero_log::time_date::DTime;
use zero_log::{LogAnalyzer, LogEntry, LogLevel};

#[test]
fn test_macro_output_formatting() {
    let mut sink = MemorySink::<512>::new();

    log_event(
        &mut sink,
        Some(&mut StackBuffer::new()),
        "INFO",
        "AUTH",
        &format!("User {} connected from {}", 101, "127.0.0.1"),
    );

    let output = sink.as_str();
    assert!(output.contains("[INFO]"));
    assert!(output.contains("[AUTH]"));
    assert!(output.contains("User 101 connected from 127.0.0.1"));
}

#[test]
fn test_stack_buffer_overflow_safety() {
    let mut buffer = StackBuffer::<10>::new();

    let result = buffer.write_str("This text is way too long for 10 bytes");

    assert!(result.is_err());
    assert_eq!(buffer.as_bytes().len(), 10);
    assert_eq!(buffer.as_str(), "This text ");
}

#[test]
fn test_dtime_known_timestamps() {
    let dt_epoch = DTime::from_unix(0);
    assert_eq!(dt_epoch.formatted(), "1970-01-01 00:00:00");

    let dt_custom = DTime::from_unix(1700000000);
    assert_eq!(dt_custom.formatted(), "2023-11-14 22:13:20");
}

#[test]
fn test_invalid_log_parsing() {
    assert!(LogEntry::parse("").is_none());
    assert!(LogEntry::parse("Invalid log without brackets").is_none());
    assert!(LogEntry::parse("[100] [INFO] Unclosed target").is_none());
}

#[test]
fn test_zero_alloc_macros() {
    let mut sink = StdoutSink;
    let user_id = 42;
    let ip = "192.168.1.50";

    log_event(
        &mut sink,
        Some(&mut StackBuffer::new()),
        "INFO",
        "auth",
        &format!("User {} logged in from {}", user_id, ip),
    );
}

#[test]
fn test_zero_copy_parsing() {
    let raw_log = "[1721580000] [ERROR] [auth_service] Invalid password attempt";
    let entry = LogEntry::parse(raw_log).expect("Failed to parse");

    assert_eq!(entry.timestamp, "1721580000");
    assert_eq!(entry.level, "ERROR");
    assert_eq!(entry.target, "auth_service");
    assert_eq!(entry.message, "Invalid password attempt");
}

#[test]
fn test_zero_copy_analyzer_filtering() {
    let logs = "\
[1721580000] [INFO] [server] Server started
[1721580001] [ERROR] [db] Connection lost
[1721580002] [INFO] [server] Client connected
";
    let analyzer = LogAnalyzer::new(logs);
    let errors: Vec<_> = analyzer.filter_by_level(LogLevel::Error).into_iter().collect();

    assert_eq!(errors.len(), 1);
    assert_eq!(errors[0].target, "db");
    assert_eq!(errors[0].message, "Connection lost");
}

#[test]
fn test_no_pass_sink() {
    let vr = "0.2.3";
    let mut sink = StdoutSink;
    log_event(
        &mut sink,
        Some(&mut StackBuffer::new()),
        "INFO",
        "main",
        &format!("Application started with version {}", vr),
    );
}

#[test]
fn test_format_time_date() {
    let dt = DTime::now();

    println!("{}", dt.formatted());
}
