use std::fmt::Write;

use zero_log::buffer::StackBuffer;
use zero_log::event::{format_event, log_event};
use zero_log::sink::{LogSink, MemorySink, StdoutSink};
use zero_log::time_date::{timestamp_of_reading, DTime};
use zero_log::{FileStreamer, LogAnalyzer, LogEntry, LogLevel, LogStats};

fn fields(entry: &LogEntry) -> (String, String, String, String) {
    (
        entry.timestamp.to_string(),
        entry.level.to_string(),
        entry.target.to_string(),
        entry.message.to_string(),
    )
}

#[test]
fn level_names() {
    assert_eq!(LogLevel::Error.as_str(), "ERROR");
    assert_eq!(LogLevel::Warn.as_str(), "WARN");
    assert_eq!(LogLevel::Info.as_str(), "INFO");
    assert_eq!(LogLevel::Debug.as_str(), "DEBUG");
}

#[test]
fn parse_readme_example() {
    let entry = LogEntry::parse("[1721580000] [WARN] [database] High latency detected").unwrap();
    assert_eq!(entry.timestamp, "1721580000");
    assert_eq!(entry.level, "WARN");
    assert_eq!(entry.target, "database");
    assert_eq!(entry.message, "High latency detected");
}

#[test]
fn parse_trims_surrounding_and_inner_gaps() {
    let entry = LogEntry::parse("  \t[a b]   [ERROR]\u{3000}[t]  message body \r\n").unwrap();
    assert_eq!(entry.timestamp, "a b");
    assert_eq!(entry.level, "ERROR");
    assert_eq!(entry.target, "t");
    assert_eq!(entry.message, "message body");
}

#[test]
fn parse_keeps_bracket_contents_verbatim() {
    let entry = LogEntry::parse("[] [ x ] [ü[ñ]rest]of line").unwrap();
    assert_eq!(entry.timestamp, "");
    assert_eq!(entry.level, " x ");
    assert_eq!(entry.target, "ü[ñ");
    assert_eq!(entry.message, "rest]of line");
}

#[test]
fn parse_without_message() {
    let entry = LogEntry::parse("[1] [INFO] [sys]").unwrap();
    assert_eq!(entry.message, "");
}

#[test]
fn parse_rejects_malformed_lines() {
    assert!(LogEntry::parse("   \n").is_none());
    assert!(LogEntry::parse("[1] [INFO]").is_none());
    assert!(LogEntry::parse("[1 [INFO] [x] y").is_none());
    assert!(LogEntry::parse("[1 [INFO] [x] [y] z").is_some());
    assert!(LogEntry::parse("[1] INFO [x] y").is_none());
    assert!(LogEntry::parse("x [1] [INFO] [x] y").is_none());
    assert!(LogEntry::parse("[unclosed").is_none());
}

#[test]
fn parse_ignores_outer_whitespace_law() {
    let inner = "[7] [DEBUG] [core] done";
    let padded = format!(" \u{a0}{}\u{2003}\n", inner);
    let a = LogEntry::parse(inner).unwrap();
    let b = LogEntry::parse(&padded).unwrap();
    assert_eq!(fields(&a), fields(&b));
}

#[test]
fn analyzer_lines_and_crlf() {
    let data = "[1] [INFO] [a] one\r\n\r\nnot a log line\n[2] [ERROR] [b] two\r\n[3] [WARN] [c] three";
    let analyzer = LogAnalyzer::new(data);
    let entries = analyzer.entries();
    assert_eq!(entries.len(), 3);
    assert_eq!(entries[0].message, "one");
    assert_eq!(entries[1].target, "b");
    assert_eq!(entries[2].message, "three");
    let warns = analyzer.filter_by_level(LogLevel::Warn);
    assert_eq!(warns.len(), 1);
    assert_eq!(warns[0].timestamp, "3");
    assert!(analyzer.filter_by_level(LogLevel::Debug).is_empty());
}

#[test]
fn analyzer_on_empty_text() {
    assert!(LogAnalyzer::new("").entries().is_empty());
    assert!(LogAnalyzer::new("\n\n").entries().is_empty());
}

#[test]
fn stats_process_counts_levels() {
    let mut stats = LogStats::default();
    for line in ["[1] [ERROR] [a] x", "[2] [INFO] [a] x", "[3] [TRACE] [a] x", "[4] [DEBUG] [a] x"] {
        let entry = LogEntry::parse(line).unwrap();
        stats.process(&entry);
    }
    assert_eq!(stats.total_entries, 4);
    assert_eq!(stats.error_count, 1);
    assert_eq!(stats.warn_count, 0);
    assert_eq!(stats.info_count, 1);
    assert_eq!(stats.debug_count, 1);
}

#[test]
fn streaming_matches_analyzer_law() {
    let data = "[100] [INFO] [sys] Booting\n[101] [ERROR] [net] Disconnected\r\n\ngarbage\n[102] [ERROR] [db] Query timeout";
    let mut stats = LogStats::default();
    for chunk in data.split_inclusive('\n') {
        FileStreamer::analyze_line(&mut stats, chunk);
    }
    let analyzer = LogAnalyzer::new(data);
    assert_eq!(stats.total_entries, 3);
    assert_eq!(stats.total_entries, analyzer.entries().len());
    assert_eq!(stats.error_count, 2);
    assert_eq!(stats.error_count, analyzer.filter_by_level(LogLevel::Error).len());
    assert_eq!(stats.info_count, analyzer.filter_by_level(LogLevel::Info).len());
    assert_eq!(stats.warn_count, 0);
}

#[test]
fn counts_match_filter_law() {
    let data = "[1] [DEBUG] [a] x\n[2] [DEBUG] [b] y\n[3] [WARN] [c] z\n[4] [FATAL] [d] w\n";
    let analyzer = LogAnalyzer::new(data);
    let mut stats = LogStats::default();
    for entry in analyzer.entries() {
        stats.process(&entry);
    }
    assert_eq!(stats.total_entries, 4);
    assert_eq!(stats.debug_count, analyzer.filter_by_level(LogLevel::Debug).len());
    assert_eq!(stats.warn_count, analyzer.filter_by_level(LogLevel::Warn).len());
    assert!(stats.error_count + stats.warn_count + stats.info_count + stats.debug_count <= stats.total_entries);
}

#[test]
fn stack_buffer_writes_concatenate() {
    let mut buffer = StackBuffer::<8>::new();
    assert!(buffer.write_str("abc").is_ok());
    assert!(buffer.write_str("de").is_ok());
    assert_eq!(buffer.as_bytes(), b"abcde");
    assert!(buffer.write_str("fghij").is_err());
    assert_eq!(buffer.as_bytes(), b"abcdefgh");
    assert!(buffer.write_str("").is_ok());
    buffer.clear();
    assert!(buffer.as_bytes().is_empty());
    assert_eq!(buffer.as_str(), "");
    let default_buffer: StackBuffer<4> = StackBuffer::default();
    assert!(default_buffer.as_bytes().is_empty());
}

#[test]
fn stack_buffer_as_str_multibyte() {
    let mut buffer = StackBuffer::<16>::new();
    assert!(buffer.write_str("héllo").is_ok());
    assert_eq!(buffer.as_str(), "héllo");
}

#[test]
fn memory_sink_keeps_what_fits() {
    let mut sink = MemorySink::<6>::new();
    assert!(sink.write_log(b"abcd").is_ok());
    assert!(sink.write_log(b"efgh").is_ok());
    assert_eq!(sink.as_str(), "abcdef");
    assert!(sink.flush().is_ok());
}

#[test]
fn memory_sink_invalid_utf8_reads_empty() {
    let mut sink = MemorySink::<4>::new();
    assert!(sink.write_log("é".as_bytes()).is_ok());
    assert_eq!(sink.as_str(), "é");
    let mut cut = MemorySink::<1>::new();
    assert!(cut.write_log("é".as_bytes()).is_ok());
    assert_eq!(cut.as_str(), "");
}

#[test]
fn stdout_sink_writes() {
    let mut sink = StdoutSink;
    assert!(sink.write_log(b"stdout sink line\n").is_ok());
    assert!(sink.flush().is_ok());
}

#[test]
fn format_event_line_parses_back_law() {
    let now = DTime::from_unix(1700000000);
    let mut buffer = StackBuffer::<256>::new();
    assert!(format_event(&mut buffer, &now, "WARN", "disk io", "  slow write \t"));
    assert_eq!(buffer.as_str(), "[2023-11-14 22:13:20] [WARN] [disk io]   slow write \t\n");
    let entry = LogEntry::parse(buffer.as_str()).unwrap();
    assert_eq!(entry.timestamp, "2023-11-14 22:13:20");
    assert_eq!(entry.level, "WARN");
    assert_eq!(entry.target, "disk io");
    assert_eq!(entry.message, "slow write");
}

#[test]
fn format_event_too_long_is_refused() {
    let now = DTime::from_unix(0);
    let mut small = StackBuffer::<30>::new();
    assert!(!format_event(&mut small, &now, "INFO", "x", "y"));
    assert_eq!(small.as_bytes(), &b"[1970-01-01 00:00:00] [INFO] [x] y\n"[..30]);
    let mut exact = StackBuffer::<35>::new();
    // "[1970-01-01 00:00:00] [INFO] [x] y\n" is 35 bytes
    assert!(format_event(&mut exact, &now, "INFO", "x", "y"));
    assert_eq!(exact.as_bytes().len(), 35);
}

#[test]
fn log_event_drops_lines_over_4096_bytes() {
    let mut sink = MemorySink::<8192>::new();
    let long = "x".repeat(5000);
    log_event(&mut sink, Some(&mut StackBuffer::new()), "INFO", "big", &long);
    assert_eq!(sink.as_str(), "");
    log_event(&mut sink, Some(&mut StackBuffer::new()), "ERROR", "small", "ok");
    let entry = LogEntry::parse(sink.as_str()).unwrap();
    assert_eq!(entry.level, "ERROR");
    assert_eq!(entry.target, "small");
    assert_eq!(entry.message, "ok");
    assert_eq!(entry.timestamp.len(), 19);
}

#[test]
fn dtime_calendar_edges() {
    let cases: [(i64, &str); 10] = [
        (0, "1970-01-01 00:00:00"),
        (-1, "1969-12-31 23:59:59"),
        (951782400, "2000-02-29 00:00:00"),
        (1709164800, "2024-02-29 00:00:00"),
        (-2208988800, "1900-01-01 00:00:00"),
        (4102444800, "2100-01-01 00:00:00"),
        (253402300799, "9999-12-31 23:59:59"),
        (-62135596800, "0001-01-01 00:00:00"),
        (-62135596801, "0000-12-31 23:59:59"),
        (-62167219201, "-001-12-31 23:59:59"),
    ];
    for (ts, text) in cases {
        assert_eq!(DTime::from_unix(ts).formatted(), text);
    }
}

#[test]
fn dtime_fields_and_round_trip_law() {
    let t = DTime::from_unix(1721580000);
    assert_eq!(t, DTime { year: 2024, month: 7, day: 21, hour: 16, minute: 40, second: 0 });
    let big = DTime::from_unix(10_000_000_000_000);
    assert_eq!(big.formatted(), "318857-05-20 17:46:40");
    let far_back = DTime::from_unix(-10_000_000_000_000);
    assert_eq!(far_back.year, -314918);
}

#[test]
fn dtime_now_is_formatted() {
    let text = DTime::now().formatted();
    assert_eq!(text.len(), 19);
    assert_eq!(&text[4..5], "-");
    assert_eq!(&text[13..14], ":");
}

#[test]
fn reparse_parsed_entry_law() {
    let line = "  [ts 1] [Lv]   [tgt x]   message text  ";
    let entry = LogEntry::parse(line).unwrap();
    let written = format!(
        "[{}] [{}] [{}] {}\n",
        entry.timestamp, entry.level, entry.target, entry.message
    );
    let again = LogEntry::parse(&written).unwrap();
    assert_eq!(fields(&entry), fields(&again));
    assert!(!entry.level.contains(']'));
    assert_eq!(entry.message.trim(), entry.message);
}

#[test]
fn stack_buffer_text_after_truncation() {
    let mut buffer = StackBuffer::<3>::new();
    assert!(buffer.write_str("abcdef").is_err());
    assert_eq!(buffer.as_str(), "abc");
    assert!(buffer.write_str("g").is_err());
    assert_eq!(buffer.as_bytes(), b"abc");
}

/// A sink that logs once more, from inside its own `write_log`, while the outer event holds
/// the thread's buffer: that inner event gets no buffer.
struct EchoingSink {
    inner: MemorySink<1024>,
    echoes: MemorySink<1024>,
}

impl LogSink for EchoingSink {
    fn write_log(&mut self, data: &[u8]) -> std::io::Result<()> {
        log_event(&mut self.echoes, None, "WARN", "echo", "nested");
        self.inner.write_log(data)
    }
}

#[test]
fn log_event_without_buffer_leaves_sink_alone() {
    let mut sink = MemorySink::<512>::new();
    log_event(&mut sink, None, "INFO", "busy", "dropped");
    assert_eq!(sink.as_str(), "");
}

#[test]
fn nested_log_event_is_dropped() {
    let mut sink = EchoingSink { inner: MemorySink::new(), echoes: MemorySink::new() };
    let mut buffer = StackBuffer::<4096>::new();
    log_event(&mut sink, Some(&mut buffer), "INFO", "outer", "kept");
    assert_eq!(sink.echoes.as_str(), "");
    let entry = LogEntry::parse(sink.inner.as_str()).unwrap();
    assert_eq!(entry.target, "outer");
    assert_eq!(entry.message, "kept");
    assert_eq!(buffer.as_bytes(), sink.inner.as_str().as_bytes());
}

#[test]
fn clock_readings_to_unix_time() {
    assert_eq!(timestamp_of_reading(true, 5), 5);
    assert_eq!(timestamp_of_reading(false, 5), -5);
    assert_eq!(timestamp_of_reading(false, 0), 0);
    assert_eq!(timestamp_of_reading(false, u64::MAX), i64::MIN);
    assert_eq!(timestamp_of_reading(false, i64::MAX as u64), -i64::MAX);
    assert_eq!(timestamp_of_reading(true, u64::MAX), -1);
    assert_eq!(timestamp_of_reading(true, 1700000000), 1700000000);
}

#[test]
fn dtime_text_into_stack_buffer() {
    let mut out = StackBuffer::<32>::new();
    let t = DTime::from_unix(1700000000);
    assert_eq!(t.text_into(&mut out), "2023-11-14 22:13:20");
    let early = DTime::from_unix(-62167219201);
    assert_eq!(early.text_into(&mut out), "-001-12-31 23:59:59");
}

#[test]
fn from_unix_increasing_law() {
    let stamps: [i64; 8] =
        [-62167219201, -1, 0, 1, 59, 86399, 86400, 1700000000];
    for pair in stamps.windows(2) {
        let a = DTime::from_unix(pair[0]);
        let b = DTime::from_unix(pair[1]);
        assert!(
            (a.year, a.month, a.day, a.hour, a.minute, a.second)
                < (b.year, b.month, b.day, b.hour, b.minute, b.second)
        );
    }
}

#[test]
fn writes_in_turn_law() {
    let mut buffer = StackBuffer::<8>::new();
    let pieces = ["abc", "de", "fgh", "ij", ""];
    for piece in pieces {
        let _ = buffer.write_str(piece);
    }
    assert_eq!(buffer.as_bytes(), b"abcdefgh");
    assert_eq!(buffer.as_bytes(), &pieces.concat().as_bytes()[..8]);
    let mut roomy = StackBuffer::<64>::new();
    for piece in pieces {
        assert!(roomy.write_str(piece).is_ok());
    }
    assert_eq!(roomy.as_str(), "abcdefghij");
}

#[test]
fn write_keeps_utf8_law() {
    // the cut falls between the two characters
    let mut on_boundary = StackBuffer::<3>::new();
    assert!(on_boundary.write_str("a").is_ok());
    assert!(on_boundary.write_str("éé").is_err());
    assert_eq!(on_boundary.as_str(), "aé");
    // the cut falls inside a character: the bytes are kept, but they are no text
    let mut inside = StackBuffer::<2>::new();
    assert!(inside.write_str("a").is_ok());
    assert!(inside.write_str("é").is_err());
    assert_eq!(inside.as_bytes(), &[b'a', 0xC3]);
    assert!(std::str::from_utf8(inside.as_bytes()).is_err());
}

#[test]
fn streamed_counts_match_analyzer_law() {
    let text = "[1] [ERROR] [a] x\r\nbroken\n[2] [INFO] [b] y\n\n[3] [ERROR] [c] z\n[4] [TRACE] [d] w";
    let mut stats = LogStats::default();
    for chunk in text.split_inclusive('\n') {
        FileStreamer::analyze_line(&mut stats, chunk);
    }
    let analyzer = LogAnalyzer::new(text);
    assert_eq!(stats.total_entries, analyzer.entries().len());
    assert_eq!(stats.total_entries, 4);
    assert_eq!(stats.error_count, analyzer.filter_by_level(LogLevel::Error).len());
    assert_eq!(stats.warn_count, analyzer.filter_by_level(LogLevel::Warn).len());
    assert_eq!(stats.info_count, analyzer.filter_by_level(LogLevel::Info).len());
    assert_eq!(stats.debug_count, analyzer.filter_by_level(LogLevel::Debug).len());
    assert_eq!(stats.error_count, 2);
}
