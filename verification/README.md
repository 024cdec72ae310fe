# zero_log

Parsing and analysis of log lines of the form `[timestamp] [LEVEL] [target] message`,
log emission through pluggable sinks, and conversion of unix time to UTC calendar dates,
written in Verus with every function of `src/` proved against its contract.

- `src/lib.rs`: `LogLevel`, `LogEntry::parse`, `LogAnalyzer`, `LogStats`, `FileStreamer`,
  with the specifications of the line format (`spec_parse`, `spec_lines`, `spec_entries`).
- `src/text.rs`: characters of UTF-8 text: whitespace, trimming, searching, and slicing a
  `&str` at character positions.
- `src/time_date.rs`: the Gregorian calendar counted in days, `DTime::from_unix`,
  `DTime::now`, and the text `YYYY-MM-DD HH:MM:SS`.
- `src/buffer.rs`, `src/sink.rs`, `src/event.rs`: the fixed-capacity line buffer, the sinks,
  and the formatting and emission of log events.
- `src/properties.rs`: properties that span several operations, such as that an emitted
  line parses back into its fields, and that streaming a file counts what the in-memory
  analyzer finds.
- `app/lib.rs`: what needs the file system, thread-local state or formatting machinery: the
  `info!`/`error!`/`warn!`/`debug!` macros with each thread's line buffer (an event logged
  while the buffer is held, from inside a sink or an argument, gets `None` in place of the
  buffer and is dropped by `log_event`), `FileSink`, and `FileStreamer::stream` and
  `FileStreamer::analyze_file` through the `FileStreamerIo` trait.
