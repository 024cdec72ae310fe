//! Zero-copy parsing and analysis of log lines of the form `[timestamp] [LEVEL] [target] message`,
//! log emission through pluggable sinks, and UTC calendar conversion of unix time.
pub mod buffer;
pub mod event;
pub mod properties;
pub mod sink;
pub mod text;
pub mod time_date;

use vstd::prelude::*;
use crate::text::{
    find_ascii, find_first, lemma_find_first, split_chars, starts_with_ascii, str_eq, strip_cr,
    strip_cr_str, trim, trim_start, trim_start_str, trim_str,
};

verus! {

/// Represents the severity level of a log entry.
#[derive(Debug, Clone, Copy, PartialEq, Eq, Structural)]
pub enum LogLevel {
    /// Critical errors or failure events.
    Error,
    /// Warning conditions that might require attention.
    Warn,
    /// General informational messages.
    Info,
    /// Detailed diagnostic information for debugging.
    Debug,
}

/// The upper-case name of a level.
pub open spec fn level_name(level: LogLevel) -> Seq<char> {
    match level {
        LogLevel::Error => seq!['E', 'R', 'R', 'O', 'R'],
        LogLevel::Warn => seq!['W', 'A', 'R', 'N'],
        LogLevel::Info => seq!['I', 'N', 'F', 'O'],
        LogLevel::Debug => seq!['D', 'E', 'B', 'U', 'G'],
    }
}

impl LogLevel {
    /// The upper-case name of the level: `"ERROR"`, `"WARN"`, `"INFO"` or `"DEBUG"`.
    pub fn as_str(&self) -> (r: &'static str)
        ensures
            r@ == level_name(*self),
    {
        match self {
            LogLevel::Error => {
                proof {
                    reveal_strlit("ERROR");
                }
                "ERROR"
            },
            LogLevel::Warn => {
                proof {
                    reveal_strlit("WARN");
                }
                "WARN"
            },
            LogLevel::Info => {
                proof {
                    reveal_strlit("INFO");
                }
                "INFO"
            },
            LogLevel::Debug => {
                proof {
                    reveal_strlit("DEBUG");
                }
                "DEBUG"
            },
        }
    }
}

/// The four text fields of a parsed log line.
pub struct EntryView {
    pub timestamp: Seq<char>,
    pub level: Seq<char>,
    pub target: Seq<char>,
    pub message: Seq<char>,
}

/// A parsed log entry whose fields are slices of the line it was parsed from.
#[derive(Clone, Copy)]
pub struct LogEntry<'a> {
    /// Unix timestamp or formatted date string of the log event.
    pub timestamp: &'a str,
    /// Severity level of the log (e.g. `INFO`, `WARN`, `ERROR`).
    pub level: &'a str,
    /// Component or target module that generated the log.
    pub target: &'a str,
    /// The log message.
    pub message: &'a str,
}

impl<'a> DeepView for LogEntry<'a> {
    type V = EntryView;

    open spec fn deep_view(&self) -> EntryView {
        EntryView {
            timestamp: self.timestamp@,
            level: self.level@,
            target: self.target@,
            message: self.message@,
        }
    }
}

/// `[content]rest`: the content of a leading bracket pair and what follows it.
pub open spec fn spec_extract_bracket(s: Seq<char>) -> Option<(Seq<char>, Seq<char>)> {
    if s.len() > 0 && s[0] == '[' {
        match find_first(s, ']') {
            Some(e) => Some((s.subrange(1, e), s.skip(e + 1))),
            None => None,
        }
    } else {
        None
    }
}

/// The entry that a log line `[timestamp] [level] [target] message` describes, if it is one.
pub open spec fn spec_parse(line: Seq<char>) -> Option<EntryView> {
    let t = trim(line);
    if t.len() == 0 {
        None
    } else {
        match spec_extract_bracket(t) {
            None => None,
            Some((timestamp, r1)) => match spec_extract_bracket(trim_start(r1)) {
                None => None,
                Some((level, r2)) => match spec_extract_bracket(trim_start(r2)) {
                    None => None,
                    Some((target, r3)) => Some(
                        EntryView { timestamp, level, target, message: trim_start(r3) },
                    ),
                },
            },
        }
    }
}

/// The text of a log line `[timestamp] [level] [target] message`, with its line feed.
pub open spec fn log_line(
    timestamp: Seq<char>,
    level: Seq<char>,
    target: Seq<char>,
    message: Seq<char>,
) -> Seq<char> {
    seq!['['] + timestamp + seq![']', ' ', '['] + level + seq![']', ' ', '['] + target + seq![
        ']',
        ' ',
    ] + message + seq!['\n']
}

impl<'a> LogEntry<'a> {
    /// Parses a raw log line of the form `[timestamp] [level] [target] message`.
    ///
    /// Returns `None` if the line is empty or malformed.
    pub fn parse(line: &'a str) -> (r: Option<Self>)
        ensures
            r.deep_view() == spec_parse(line@),
    {
        let line = trim_str(line);
        if line.is_empty() {
            return None;
        }
        let (timestamp, rest) = extract_bracket(line)?;
        let (level, rest) = extract_bracket(trim_start_str(rest))?;
        let (target, rest) = extract_bracket(trim_start_str(rest))?;
        let message = trim_start_str(rest);

        Some(Self { timestamp, level, target, message })
    }
}

fn extract_bracket<'a>(input: &'a str) -> (r: Option<(&'a str, &'a str)>)
    ensures
        match r {
            Some((content, rest)) => spec_extract_bracket(input@) == Some((content@, rest@)),
            None => spec_extract_bracket(input@) is None,
        },
{
    if !starts_with_ascii(input, '[') {
        return None;
    }
    let (end, Ghost(e)) = match find_ascii(input, ']') {
        Some(found) => found,
        None => return None,
    };
    proof {
        lemma_find_first(input@, ']');
    }
    let (head, _) = split_chars(input, end, Ghost(e));
    proof {
        assert(head@.take(1) =~= input@.take(1));
    }
    let (_, content) = split_chars(head, 1, Ghost(1));
    let (_, remaining) = split_chars(input, end + 1, Ghost(e + 1));
    proof {
        assert(content@ =~= input@.subrange(1, e));
    }
    Some((content, remaining))
}

/// The lines of `s` as `str::lines` yields them: split at `\n`, one `\r` before each `\n`
/// dropped, and no empty last line after a final `\n`.
pub open spec fn spec_lines(s: Seq<char>) -> Seq<Seq<char>>
    decreases s.len(),
{
    if s.len() == 0 {
        Seq::empty()
    } else {
        match find_first(s, '\n') {
            Some(e) => {
                proof {
                    lemma_find_first(s, '\n');
                }
                seq![strip_cr(s.take(e))] + spec_lines(s.skip(e + 1))
            },
            None => seq![s],
        }
    }
}

/// The entries of the lines that parse, in order.
pub open spec fn parse_lines(lines: Seq<Seq<char>>) -> Seq<EntryView>
    decreases lines.len(),
{
    if lines.len() == 0 {
        Seq::empty()
    } else {
        let first = match spec_parse(lines[0]) {
            Some(e) => seq![e],
            None => Seq::empty(),
        };
        first + parse_lines(lines.drop_first())
    }
}

/// The entries of the well-formed lines of `s`.
pub open spec fn spec_entries(s: Seq<char>) -> Seq<EntryView> {
    parse_lines(spec_lines(s))
}

/// Whether an entry's level field is `name`.
pub open spec fn has_level(name: Seq<char>) -> spec_fn(EntryView) -> bool {
    |e: EntryView| e.level == name
}

/// Selecting the entries of a level keeps exactly those whose level field is its name, each
/// once and in their order: the subsequence that `Seq::filter` picks out.
pub proof fn law_select_level_is_filter(entries: Seq<EntryView>, name: Seq<char>)
    ensures
        select_level(entries, name) == entries.filter(has_level(name)),
    decreases entries.len(),
{
    if entries.len() == 0 {
        entries.lemma_filter_len(has_level(name));
        assert(entries.filter(has_level(name)) =~= Seq::<EntryView>::empty());
    } else {
        law_select_level_is_filter(entries.drop_first(), name);
        assert(entries =~= seq![entries[0]] + entries.drop_first());
        entries.drop_first().lemma_filter_prepend(entries[0], has_level(name));
    }
}

/// The entries whose level field is `name`, in order.
pub open spec fn select_level(entries: Seq<EntryView>, name: Seq<char>) -> Seq<EntryView>
    decreases entries.len(),
{
    if entries.len() == 0 {
        Seq::empty()
    } else {
        let first = if entries[0].level == name {
            seq![entries[0]]
        } else {
            Seq::empty()
        };
        first + select_level(entries.drop_first(), name)
    }
}

/// An in-memory, zero-copy log analyzer over raw log text.
pub struct LogAnalyzer<'a> {
    raw_data: &'a str,
}

impl<'a> LogAnalyzer<'a> {
    /// The text under analysis.
    pub closed spec fn data(&self) -> Seq<char> {
        self.raw_data@
    }

    /// Creates a new analyzer over a raw log text.
    pub fn new(raw_data: &'a str) -> (r: Self)
        ensures
            r.data() == raw_data@,
    {
        Self { raw_data }
    }

    /// The parsed entries of the text, line by line; malformed lines are skipped.
    pub fn entries(&self) -> (r: Vec<LogEntry<'a>>)
        ensures
            r.deep_view() == spec_entries(self.data()),
    {
        let mut out: Vec<LogEntry<'a>> = Vec::new();
        let mut rest: &'a str = self.raw_data;
        proof {
            assert(out.deep_view() =~= Seq::<EntryView>::empty());
        }
        while !rest.is_empty()
            invariant
                spec_entries(self.raw_data@) == out.deep_view() + spec_entries(rest@),
            decreases rest@.len(),
        {
            let ghost r = rest@;
            let ghost before = out.deep_view();
            match find_ascii(rest, '\n') {
                Some((k, ge)) => {
                    let ghost e = ge@;
                    proof {
                        lemma_find_first(r, '\n');
                    }
                    let (line_cr, _) = split_chars(rest, k, Ghost(e));
                    let line = strip_cr_str(line_cr);
                    let (_, tail) = split_chars(rest, k + 1, Ghost(e + 1));
                    let parsed = LogEntry::parse(line);
                    if let Some(entry) = parsed {
                        out.push(entry);
                    }
                    proof {
                        let lines = spec_lines(r);
                        assert(lines == seq![strip_cr(r.take(e))] + spec_lines(r.skip(e + 1)));
                        assert(lines[0] == line@);
                        assert(lines.drop_first() =~= spec_lines(tail@));
                        assert(out.deep_view() =~= before + match spec_parse(line@) {
                            Some(x) => seq![x],
                            None => Seq::<EntryView>::empty(),
                        });
                        assert(spec_entries(r) == match spec_parse(line@) {
                            Some(x) => seq![x],
                            None => Seq::<EntryView>::empty(),
                        } + spec_entries(tail@));
                        assert(spec_entries(self.raw_data@) =~= out.deep_view() + spec_entries(
                            tail@,
                        ));
                    }
                    rest = tail;
                },
                None => {
                    let parsed = LogEntry::parse(rest);
                    if let Some(entry) = parsed {
                        out.push(entry);
                    }
                    proof {
                        let lines = spec_lines(r);
                        assert(lines == seq![r]);
                        assert(lines.drop_first() =~= Seq::<Seq<char>>::empty());
                        assert(parse_lines(lines.drop_first()) =~= Seq::<EntryView>::empty());
                        assert(spec_entries(self.raw_data@) =~= out.deep_view());
                    }
                    proof {
                        reveal_strlit("");
                        assert(spec_entries(""@) =~= Seq::<EntryView>::empty());
                    }
                    rest = "";
                },
            }
        }
        proof {
            assert(spec_entries(rest@) =~= Seq::<EntryView>::empty());
            assert(spec_entries(self.raw_data@) =~= out.deep_view());
        }
        out
    }

    /// The parsed entries whose level is `level`.
    pub fn filter_by_level(&self, level: LogLevel) -> (r: Vec<LogEntry<'a>>)
        ensures
            r.deep_view() == select_level(spec_entries(self.data()), level_name(level)),
            r.deep_view() == spec_entries(self.data()).filter(has_level(level_name(level))),
    {
        let target_level = level.as_str();
        let all = self.entries();
        let mut out: Vec<LogEntry<'a>> = Vec::new();
        let mut i: usize = 0;
        proof {
            assert(all.deep_view().skip(0) =~= all.deep_view());
            assert(out.deep_view() =~= Seq::<EntryView>::empty());
        }
        while i < all.len()
            invariant
                0 <= i <= all@.len(),
                target_level@ == level_name(level),
                all.deep_view() == spec_entries(self.data()),
                select_level(all.deep_view(), level_name(level)) == out.deep_view()
                    + select_level(all.deep_view().skip(i as int), level_name(level)),
            decreases all@.len() - i,
        {
            let ghost before = out.deep_view();
            let entry = all[i];
            proof {
                let rest = all.deep_view().skip(i as int);
                assert(rest[0] == entry.deep_view());
                assert(rest.drop_first() =~= all.deep_view().skip(i + 1));
            }
            if str_eq(entry.level, target_level) {
                out.push(entry);
            }
            proof {
                assert(out.deep_view() =~= before + if entry.level@ == level_name(level) {
                    seq![entry.deep_view()]
                } else {
                    Seq::<EntryView>::empty()
                });
                assert(select_level(all.deep_view(), level_name(level)) =~= out.deep_view()
                    + select_level(all.deep_view().skip(i + 1), level_name(level)));
            }
            i = i + 1;
        }
        proof {
            assert(all.deep_view().skip(i as int) =~= Seq::<EntryView>::empty());
            assert(select_level(all.deep_view(), level_name(level)) =~= out.deep_view());
            law_select_level_is_filter(all.deep_view(), level_name(level));
        }
        out
    }
}

/// Statistics summary of analyzed log entries.
#[derive(Debug, Clone, Copy)]
pub struct LogStats {
    /// Total number of processed entries.
    pub total_entries: usize,
    /// Count of `ERROR` level entries.
    pub error_count: usize,
    /// Count of `WARN` level entries.
    pub warn_count: usize,
    /// Count of `INFO` level entries.
    pub info_count: usize,
    /// Count of `DEBUG` level entries.
    pub debug_count: usize,
}

impl Default for LogStats {
    fn default() -> (r: Self)
        ensures
            r.total_entries == 0 && r.error_count == 0 && r.warn_count == 0 && r.info_count == 0
                && r.debug_count == 0,
    {
        LogStats { total_entries: 0, error_count: 0, warn_count: 0, info_count: 0, debug_count: 0 }
    }
}

impl LogStats {
    /// The statistics after counting one more entry whose level field is `level`.
    pub open spec fn counted(self, level: Seq<char>) -> LogStats {
        LogStats {
            total_entries: (self.total_entries + 1) as usize,
            error_count: if level == level_name(LogLevel::Error) {
                (self.error_count + 1) as usize
            } else {
                self.error_count
            },
            warn_count: if level == level_name(LogLevel::Warn) {
                (self.warn_count + 1) as usize
            } else {
                self.warn_count
            },
            info_count: if level == level_name(LogLevel::Info) {
                (self.info_count + 1) as usize
            } else {
                self.info_count
            },
            debug_count: if level == level_name(LogLevel::Debug) {
                (self.debug_count + 1) as usize
            } else {
                self.debug_count
            },
        }
    }

    /// Counting one more entry of level `level` overflows none of the counters.
    pub open spec fn can_count(self, level: Seq<char>) -> bool {
        &&& self.total_entries < usize::MAX
        &&& level == level_name(LogLevel::Error) ==> self.error_count < usize::MAX
        &&& level == level_name(LogLevel::Warn) ==> self.warn_count < usize::MAX
        &&& level == level_name(LogLevel::Info) ==> self.info_count < usize::MAX
        &&& level == level_name(LogLevel::Debug) ==> self.debug_count < usize::MAX
    }

    /// Counts one entry: the total, and the counter of its level if it names one.
    pub fn process(&mut self, entry: &LogEntry)
        requires
            old(self).can_count(entry.level@),
        ensures
            *final(self) == old(self).counted(entry.level@),
    {
        self.total_entries += 1;
        if str_eq(entry.level, LogLevel::Error.as_str()) {
            self.error_count += 1;
        } else if str_eq(entry.level, LogLevel::Warn.as_str()) {
            self.warn_count += 1;
        } else if str_eq(entry.level, LogLevel::Info.as_str()) {
            self.info_count += 1;
        } else if str_eq(entry.level, LogLevel::Debug.as_str()) {
            self.debug_count += 1;
        }
    }
}

/// The statistics after one log line: counted if it parses, unchanged otherwise.
pub open spec fn stats_after_line(stats: LogStats, line: Seq<char>) -> LogStats {
    match spec_parse(line) {
        Some(e) => stats.counted(e.level),
        None => stats,
    }
}

/// Log file streaming and analysis; the reading itself is done by the caller.
pub struct FileStreamer;

impl FileStreamer {
    /// One step of streaming analysis: folds one line read from a log file into `stats`.
    pub fn analyze_line(stats: &mut LogStats, line: &str)
        requires
            match spec_parse(line@) {
                Some(e) => old(stats).can_count(e.level),
                None => true,
            },
        ensures
            *final(stats) == stats_after_line(*old(stats), line@),
    {
        if let Some(entry) = LogEntry::parse(line) {
            stats.process(&entry);
        }
    }
}

} // verus!
