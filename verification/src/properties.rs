//! Properties that relate several operations of the library.
use vstd::prelude::*;

use crate::event::event_line;
use crate::text::{
    all_white_space, find_first, is_white_space, lacks_char, lemma_find_first, lemma_find_first_after, strip_cr,
    lemma_trim_commutes, lemma_trim_end_empty, lemma_trim_end_prepend,
    lemma_trim_end_skips_white_space, lemma_trim_ignores_white_space,
    lemma_trim_end_shape, lemma_trim_start_shape, lemma_trim_start_skips_white_space, trim,
    trim_end, trim_start,
};
use crate::time_date::{decimal, dtime_text, zero_padded, zeros, DTime};
use crate::{
    level_name, parse_lines, select_level, spec_entries, spec_extract_bracket, spec_lines,
    log_line, spec_parse, stats_after_line, EntryView, LogLevel, LogStats,
};

verus! {

proof fn lemma_lacks_concat(a: Seq<char>, b: Seq<char>, ch: char)
    requires
        lacks_char(a, ch),
        lacks_char(b, ch),
    ensures
        lacks_char(a + b, ch),
{
    assert forall|i: int| 0 <= i < (a + b).len() implies #[trigger] (a + b)[i] != ch by {
        if i < a.len() {
            assert((a + b)[i] == a[i]);
        } else {
            assert((a + b)[i] == b[i - a.len()]);
        }
    }
}

proof fn lemma_decimal_lacks_bracket(n: nat)
    ensures
        lacks_char(decimal(n), ']'),
    decreases n,
{
    if n >= 10 {
        lemma_decimal_lacks_bracket(n / 10);
        lemma_lacks_concat(decimal(n / 10), seq![crate::time_date::digit_char((n % 10) as int)], ']');
    }
}

proof fn lemma_zero_padded_lacks_bracket(v: int, width: int)
    ensures
        lacks_char(zero_padded(v, width), ']'),
{
    if v < 0 {
        lemma_decimal_lacks_bracket((-v) as nat);
        lemma_lacks_concat(seq!['-'], zeros(width - 1 - decimal((-v) as nat).len()), ']');
        lemma_lacks_concat(
            seq!['-'] + zeros(width - 1 - decimal((-v) as nat).len()),
            decimal((-v) as nat),
            ']',
        );
    } else {
        lemma_decimal_lacks_bracket(v as nat);
        lemma_lacks_concat(zeros(width - decimal(v as nat).len()), decimal(v as nat), ']');
    }
}

/// The text of a date and time holds no closing bracket.
proof fn lemma_dtime_text_lacks_bracket(t: DTime)
    ensures
        lacks_char(dtime_text(t), ']'),
{
    let y = zero_padded(t.year as int, 4);
    let mo = zero_padded(t.month as int, 2);
    let d = zero_padded(t.day as int, 2);
    let h = zero_padded(t.hour as int, 2);
    let mi = zero_padded(t.minute as int, 2);
    let s = zero_padded(t.second as int, 2);
    lemma_zero_padded_lacks_bracket(t.year as int, 4);
    lemma_zero_padded_lacks_bracket(t.month as int, 2);
    lemma_zero_padded_lacks_bracket(t.day as int, 2);
    lemma_zero_padded_lacks_bracket(t.hour as int, 2);
    lemma_zero_padded_lacks_bracket(t.minute as int, 2);
    lemma_zero_padded_lacks_bracket(t.second as int, 2);
    let parts = y + seq!['-'] + mo + seq!['-'] + d + seq![' '] + h + seq![':'] + mi + seq![':'] + s;
    assert(parts == dtime_text(t));
    assert forall|i: int| 0 <= i < parts.len() implies #[trigger] parts[i] != ']' by {
        lemma_lacks_concat(y, seq!['-'], ']');
        lemma_lacks_concat(y + seq!['-'], mo, ']');
        lemma_lacks_concat(y + seq!['-'] + mo, seq!['-'], ']');
        lemma_lacks_concat(y + seq!['-'] + mo + seq!['-'], d, ']');
        lemma_lacks_concat(y + seq!['-'] + mo + seq!['-'] + d, seq![' '], ']');
        lemma_lacks_concat(y + seq!['-'] + mo + seq!['-'] + d + seq![' '], h, ']');
        lemma_lacks_concat(y + seq!['-'] + mo + seq!['-'] + d + seq![' '] + h, seq![':'], ']');
        lemma_lacks_concat(y + seq!['-'] + mo + seq!['-'] + d + seq![' '] + h + seq![':'], mi, ']');
        lemma_lacks_concat(
            y + seq!['-'] + mo + seq!['-'] + d + seq![' '] + h + seq![':'] + mi,
            seq![':'],
            ']',
        );
        lemma_lacks_concat(
            y + seq!['-'] + mo + seq!['-'] + d + seq![' '] + h + seq![':'] + mi + seq![':'],
            s,
            ']',
        );
    }
}

/// `[a]r` with no `]` in `a` splits into `a` and `r`.
proof fn lemma_extract_bracket_of(a: Seq<char>, r: Seq<char>)
    requires
        lacks_char(a, ']'),
    ensures
        spec_extract_bracket(seq!['['] + a + seq![']'] + r) == Some((a, r)),
{
    let s = seq!['['] + a + seq![']'] + r;
    let x = seq!['['] + a;
    lemma_lacks_concat(seq!['['], a, ']');
    assert(s =~= x + (seq![']'] + r));
    lemma_find_first_after(x, seq![']'] + r, ']');
    assert(find_first(seq![']'] + r, ']') == Some(0int));
    assert(s[0] == '[');
    assert(s.subrange(1, a.len() as int + 1) =~= a);
    assert(s.skip(a.len() as int + 2) =~= r);
}

/// Leading whitespace before a bracket is skipped by `trim_start`.
proof fn lemma_trim_start_before_bracket(n: nat, rest: Seq<char>)
    requires
        n <= 1,
    ensures
        trim_start(Seq::new(n, |i: int| ' ') + seq!['['] + rest) == seq!['['] + rest,
{
    let w = Seq::new(n, |i: int| ' ');
    assert(all_white_space(w));
    assert(w + seq!['['] + rest =~= w + (seq!['['] + rest));
    lemma_trim_start_skips_white_space(w, seq!['['] + rest);
    assert((seq!['['] + rest)[0] == '[');
}

/// Whitespace before or after a log line does not change what it parses to.
pub proof fn law_parse_ignores_outer_white_space(w1: Seq<char>, line: Seq<char>, w2: Seq<char>)
    requires
        all_white_space(w1),
        all_white_space(w2),
    ensures
        spec_parse(w1 + line + w2) == spec_parse(line),
{
    lemma_trim_ignores_white_space(w1, line, w2);
}

/// A log line parses back into the fields it was made of, the message without surrounding
/// whitespace, as long as the bracketed fields hold no closing bracket.
pub proof fn law_log_line_parses(
    timestamp: Seq<char>,
    level: Seq<char>,
    target: Seq<char>,
    message: Seq<char>,
)
    requires
        lacks_char(timestamp, ']'),
        lacks_char(level, ']'),
        lacks_char(target, ']'),
    ensures
        spec_parse(log_line(timestamp, level, target, message)) == Some(
            EntryView { timestamp, level, target, message: trim(message) },
        ),
{
    let t = timestamp;
    let line = log_line(timestamp, level, target, message);
    // the line with its ending trimmed away
    let r3: Seq<char> = if trim_end(message).len() > 0 {
        seq![' '] + trim_end(message)
    } else {
        Seq::empty()
    };
    let part3 = seq!['['] + target + seq![']'] + r3;
    let part2 = seq!['['] + level + seq![']'] + seq![' '] + part3;
    let trimmed = seq!['['] + t + seq![']'] + seq![' '] + part2;
    let q = seq!['['] + t + seq![']', ' ', '['] + level + seq![']', ' ', '['] + target + seq![']'];
    assert(line =~= q + seq![' '] + message + seq!['\n']);
    assert(all_white_space(seq!['\n'])) by {
        assert(is_white_space(seq!['\n'][0]));
    }
    lemma_trim_end_skips_white_space(q + seq![' '] + message, seq!['\n']);
    if trim_end(message).len() > 0 {
        lemma_trim_end_prepend(q + seq![' '], message);
        assert(trim_end(line) =~= trimmed);
    } else {
        lemma_trim_end_empty(message);
        lemma_trim_end_skips_white_space(q + seq![' '], message);
        assert(all_white_space(seq![' '])) by {
            assert(is_white_space(seq![' '][0]));
        }
        lemma_trim_end_skips_white_space(q, seq![' ']);
        assert(q.last() == ']');
        assert(trim_end(q) == q);
        assert(trim_end(line) =~= trimmed);
    }
    assert(trimmed[0] == '[');
    assert(trim_start(trimmed) == trimmed);
    lemma_trim_commutes(line);
    assert(trim(line) == trimmed) by {
        assert(line[0] == '[');
        assert(trim_start(line) == line);
    }
    // first bracket: the timestamp
    assert(trimmed =~= seq!['['] + t + seq![']'] + (seq![' '] + part2));
    lemma_extract_bracket_of(t, seq![' '] + part2);
    lemma_trim_start_before_bracket(1, level + seq![']'] + seq![' '] + part3);
    assert(Seq::new(1, |i: int| ' ') =~= seq![' ']);
    assert(seq![' '] + part2 =~= Seq::new(1, |i: int| ' ') + seq!['['] + (level + seq![']']
        + seq![' '] + part3));
    assert(trim_start(seq![' '] + part2) =~= part2);
    // second bracket: the level
    assert(part2 =~= seq!['['] + level + seq![']'] + (seq![' '] + part3));
    lemma_extract_bracket_of(level, seq![' '] + part3);
    lemma_trim_start_before_bracket(1, target + seq![']'] + r3);
    assert(seq![' '] + part3 =~= Seq::new(1, |i: int| ' ') + seq!['['] + (target + seq![']']
        + r3));
    assert(trim_start(seq![' '] + part3) =~= part3);
    // third bracket: the target
    lemma_extract_bracket_of(target, r3);
    // the message
    if trim_end(message).len() > 0 {
        assert(all_white_space(seq![' '])) by {
            assert(is_white_space(seq![' '][0]));
        }
        lemma_trim_start_skips_white_space(seq![' '], trim_end(message));
        lemma_trim_commutes(message);
    } else {
        lemma_trim_end_empty(message);
        lemma_trim_start_skips_white_space(message, Seq::<char>::empty());
        assert(message + Seq::<char>::empty() =~= message);
        assert(trim_start(message) =~= Seq::<char>::empty());
        assert(trim(message) =~= Seq::<char>::empty());
    }
}

/// A bracket skips any leading whitespace in front of it.
proof fn lemma_trim_start_to_bracket(w: Seq<char>, rest: Seq<char>)
    requires
        all_white_space(w),
    ensures
        trim_start(w + (seq!['['] + rest)) == seq!['['] + rest,
{
    lemma_trim_start_skips_white_space(w, seq!['['] + rest);
    assert((seq!['['] + rest)[0] == '[');
}

/// A line of three bracketed fields and a message parses into those fields and the message
/// without surrounding whitespace, whatever whitespace (none included) lies between the
/// brackets, as long as the bracketed fields hold no closing bracket.
pub proof fn law_fields_parse_with_any_gaps(
    timestamp: Seq<char>,
    w1: Seq<char>,
    level: Seq<char>,
    w2: Seq<char>,
    target: Seq<char>,
    message: Seq<char>,
)
    requires
        lacks_char(timestamp, ']'),
        lacks_char(level, ']'),
        lacks_char(target, ']'),
        all_white_space(w1),
        all_white_space(w2),
    ensures
        spec_parse(
            seq!['['] + timestamp + seq![']'] + w1 + seq!['['] + level + seq![']'] + w2 + seq!['[']
                + target + seq![']'] + message,
        ) == Some(EntryView { timestamp, level, target, message: trim(message) }),
{
    let head = seq!['['] + timestamp + seq![']'] + w1 + seq!['['] + level + seq![']'] + w2
        + seq!['['] + target + seq![']'];
    let line = head + message;
    let m = trim_end(message);
    // the line with its trailing whitespace cut
    if m.len() > 0 {
        lemma_trim_end_prepend(head, message);
    } else {
        lemma_trim_end_empty(message);
        lemma_trim_end_skips_white_space(head, message);
        assert(head.last() == ']');
        assert(trim_end(head) == head);
        assert(head + m =~= head);
    }
    assert(trim_end(line) == head + m);
    assert(line[0] == '[');
    assert(trim_start(line) == line);
    let trimmed = head + m;
    assert(trim(line) == trimmed);
    let r3 = m;
    let part3 = seq!['['] + target + seq![']'] + r3;
    let r2 = w2 + part3;
    let part2 = seq!['['] + level + seq![']'] + r2;
    let r1 = w1 + part2;
    assert(trimmed =~= seq!['['] + timestamp + seq![']'] + r1);
    assert(trimmed.len() > 0);
    // the timestamp
    lemma_extract_bracket_of(timestamp, r1);
    assert(part2 =~= seq!['['] + (level + seq![']'] + r2));
    lemma_trim_start_to_bracket(w1, level + seq![']'] + r2);
    assert(trim_start(r1) == part2);
    // the level
    lemma_extract_bracket_of(level, r2);
    assert(part3 =~= seq!['['] + (target + seq![']'] + r3));
    lemma_trim_start_to_bracket(w2, target + seq![']'] + r3);
    assert(trim_start(r2) == part3);
    // the target, and the message
    lemma_extract_bracket_of(target, r3);
    lemma_trim_commutes(message);
}

/// The content of a leading bracket pair holds no closing bracket, and what follows the pair
/// ends as the text does.
proof fn lemma_extract_bracket_parts(s: Seq<char>)
    requires
        spec_extract_bracket(s) is Some,
    ensures
        ({
            let (content, rest) = spec_extract_bracket(s).unwrap();
            &&& lacks_char(content, ']')
            &&& rest.len() < s.len()
            &&& rest.len() > 0 ==> rest.last() == s.last()
        }),
{
    lemma_find_first(s, ']');
    let e = find_first(s, ']').unwrap();
    let content = s.subrange(1, e);
    assert forall|i: int| 0 <= i < content.len() implies #[trigger] content[i] != ']' by {
        assert(content[i] == s[i + 1]);
    }
}

/// The bracketed fields of a parsed line hold no closing bracket, and its message has no
/// surrounding whitespace.
pub proof fn law_parsed_fields(line: Seq<char>)
    requires
        spec_parse(line) is Some,
    ensures
        ({
            let e = spec_parse(line).unwrap();
            &&& lacks_char(e.timestamp, ']')
            &&& lacks_char(e.level, ']')
            &&& lacks_char(e.target, ']')
            &&& trim(e.message) == e.message
        }),
{
    let t = trim(line);
    lemma_trim_end_shape(trim_start(line));
    lemma_extract_bracket_parts(t);
    let r1 = spec_extract_bracket(t).unwrap().1;
    let x2 = trim_start(r1);
    lemma_trim_start_shape(r1);
    lemma_extract_bracket_parts(x2);
    let r2 = spec_extract_bracket(x2).unwrap().1;
    let x3 = trim_start(r2);
    lemma_trim_start_shape(r2);
    lemma_extract_bracket_parts(x3);
    let r3 = spec_extract_bracket(x3).unwrap().1;
    let message = trim_start(r3);
    lemma_trim_start_shape(r3);
    if message.len() > 0 {
        assert(message.last() == t.last());
        assert(trim_end(message) == message);
        assert(trim_start(message) == message);
    } else {
        assert(trim_start(message) =~= message);
        assert(trim_end(message) =~= message);
    }
}

/// Writing a parsed entry out as a log line again gives a line that parses to the same entry.
pub proof fn law_reparse_parsed_entry(line: Seq<char>)
    requires
        spec_parse(line) is Some,
    ensures
        ({
            let e = spec_parse(line).unwrap();
            spec_parse(log_line(e.timestamp, e.level, e.target, e.message)) == Some(e)
        }),
{
    law_parsed_fields(line);
    let e = spec_parse(line).unwrap();
    law_log_line_parses(e.timestamp, e.level, e.target, e.message);
}

/// A log line as `format_event` writes it parses back into the fields it was made of:
/// the timestamp text, the level, the target, and the message without surrounding whitespace.
pub proof fn law_event_line_parses(now: DTime, level: Seq<char>, target: Seq<char>, message: Seq<char>)
    requires
        lacks_char(level, ']'),
        lacks_char(target, ']'),
    ensures
        spec_parse(event_line(now, level, target, message)) == Some(
            EntryView { timestamp: dtime_text(now), level, target, message: trim(message) },
        ),
{
    lemma_dtime_text_lacks_bracket(now);
    law_log_line_parses(dtime_text(now), level, target, message);
}

/// The pieces `BufRead::read_line` hands out for a text: each line with its `\n`,
/// and a last piece without one when the text does not end in `\n`.
pub open spec fn read_line_chunks(s: Seq<char>) -> Seq<Seq<char>>
    decreases s.len(),
{
    if s.len() == 0 {
        Seq::empty()
    } else {
        match find_first(s, '\n') {
            Some(e) => {
                proof {
                    lemma_find_first(s, '\n');
                }
                seq![s.take(e + 1)] + read_line_chunks(s.skip(e + 1))
            },
            None => seq![s],
        }
    }
}

/// The statistics after folding lines, one by one, into `stats`.
pub open spec fn stats_after_lines(stats: LogStats, lines: Seq<Seq<char>>) -> LogStats
    decreases lines.len(),
{
    if lines.len() == 0 {
        stats
    } else {
        stats_after_lines(stats_after_line(stats, lines[0]), lines.drop_first())
    }
}

/// The statistics after counting entries, one by one, into `stats`.
pub open spec fn stats_after_entries(stats: LogStats, entries: Seq<EntryView>) -> LogStats
    decreases entries.len(),
{
    if entries.len() == 0 {
        stats
    } else {
        stats_after_entries(stats.counted(entries[0].level), entries.drop_first())
    }
}

/// Streaming a text line by line, as `read_line` reads a file, counts exactly the entries
/// that the in-memory analyzer finds in the same text.
pub proof fn law_streaming_matches_analyzer(stats: LogStats, s: Seq<char>)
    ensures
        stats_after_lines(stats, read_line_chunks(s)) == stats_after_entries(stats, spec_entries(s)),
    decreases s.len(),
{
    if s.len() == 0 {
        assert(spec_lines(s) =~= Seq::<Seq<char>>::empty());
        assert(spec_entries(s) =~= Seq::<EntryView>::empty());
    } else {
        lemma_find_first(s, '\n');
        match find_first(s, '\n') {
            Some(e) => {
                let chunk = s.take(e + 1);
                let raw = s.take(e);
                let line = strip_cr(raw);
                let rest = s.skip(e + 1);
                let chunks = read_line_chunks(s);
                assert(chunks == seq![chunk] + read_line_chunks(rest));
                assert(chunks[0] == chunk);
                assert(chunks.drop_first() =~= read_line_chunks(rest));
                // the chunk is the line followed by whitespace
                let w: Seq<char> = if raw.len() > 0 && raw.last() == '\r' {
                    seq!['\r', '\n']
                } else {
                    seq!['\n']
                };
                assert(chunk =~= Seq::<char>::empty() + line + w);
                assert(all_white_space(w)) by {
                    assert forall|i: int| 0 <= i < w.len() implies is_white_space(#[trigger] w[i]) by {}
                }
                assert(all_white_space(Seq::<char>::empty()));
                law_parse_ignores_outer_white_space(Seq::<char>::empty(), line, w);
                assert(spec_parse(chunk) == spec_parse(line));
                let lines = spec_lines(s);
                assert(lines == seq![line] + spec_lines(rest));
                assert(lines[0] == line);
                assert(lines.drop_first() =~= spec_lines(rest));
                let next = stats_after_line(stats, chunk);
                law_streaming_matches_analyzer(next, rest);
                assert(stats_after_lines(stats, chunks) == stats_after_lines(next, read_line_chunks(rest)));
                assert(spec_entries(s) == parse_lines(lines));
                assert(parse_lines(lines.drop_first()) == spec_entries(rest));
                match spec_parse(line) {
                    Some(x) => {
                        assert(spec_entries(s) == seq![x] + spec_entries(rest));
                        assert((seq![x] + spec_entries(rest))[0] == x);
                        assert((seq![x] + spec_entries(rest)).drop_first() =~= spec_entries(rest));
                        assert(next == stats.counted(x.level));
                        assert(stats_after_entries(stats, spec_entries(s)) == stats_after_entries(
                            stats.counted(x.level),
                            spec_entries(rest),
                        ));
                    },
                    None => {
                        assert(spec_entries(s) =~= Seq::<EntryView>::empty() + spec_entries(rest));
                        assert(spec_entries(s) =~= spec_entries(rest));
                        assert(next == stats);
                    },
                }
            },
            None => {
                let chunks = read_line_chunks(s);
                assert(chunks =~= seq![s]);
                assert(chunks.drop_first() =~= Seq::<Seq<char>>::empty());
                let lines = spec_lines(s);
                assert(lines =~= seq![s]);
                assert(lines.drop_first() =~= Seq::<Seq<char>>::empty());
                assert(parse_lines(lines.drop_first()) =~= Seq::<EntryView>::empty());
                assert(chunks[0] == s);
                assert(stats_after_lines(stats_after_line(stats, s), chunks.drop_first())
                    == stats_after_line(stats, s));
                assert(stats_after_lines(stats, chunks) == stats_after_line(stats, s));
                assert(spec_entries(s) == parse_lines(lines));
                match spec_parse(s) {
                    Some(x) => {
                        assert(spec_entries(s) =~= seq![x]);
                        assert(seq![x].drop_first() =~= Seq::<EntryView>::empty());
                        assert(stats_after_entries(stats, seq![x]) == stats_after_entries(
                            stats.counted(x.level),
                            Seq::<EntryView>::empty(),
                        ));
                    },
                    None => {
                        assert(spec_entries(s) =~= Seq::<EntryView>::empty());
                    },
                }
            },
        }
    }
}

/// The per-level counters never add up to more than the total.
pub open spec fn levels_within_total(stats: LogStats) -> bool {
    stats.error_count + stats.warn_count + stats.info_count + stats.debug_count
        <= stats.total_entries
}

proof fn lemma_level_names_distinct()
    ensures
        level_name(LogLevel::Error) != level_name(LogLevel::Warn),
        level_name(LogLevel::Error) != level_name(LogLevel::Info),
        level_name(LogLevel::Error) != level_name(LogLevel::Debug),
        level_name(LogLevel::Warn) != level_name(LogLevel::Info),
        level_name(LogLevel::Warn) != level_name(LogLevel::Debug),
        level_name(LogLevel::Info) != level_name(LogLevel::Debug),
{
    assert(level_name(LogLevel::Error)[0] != level_name(LogLevel::Debug)[0]);
    assert(level_name(LogLevel::Warn)[0] != level_name(LogLevel::Info)[0]);
}

/// Counting an entry keeps the per-level counters within the total.
pub proof fn law_counting_keeps_levels_within_total(stats: LogStats, level: Seq<char>)
    requires
        levels_within_total(stats),
        stats.can_count(level),
    ensures
        levels_within_total(stats.counted(level)),
{
    lemma_level_names_distinct();
}

/// How many entries of level `level` the statistics have counted.
pub open spec fn level_count(stats: LogStats, level: LogLevel) -> int {
    match level {
        LogLevel::Error => stats.error_count as int,
        LogLevel::Warn => stats.warn_count as int,
        LogLevel::Info => stats.info_count as int,
        LogLevel::Debug => stats.debug_count as int,
    }
}

/// Counting entries adds their number to the total, and to each level's counter the number
/// of entries that `filter_by_level` selects for that level.
pub proof fn law_counts_match_filter(stats: LogStats, entries: Seq<EntryView>, level: LogLevel)
    requires
        levels_within_total(stats),
        stats.total_entries + entries.len() <= usize::MAX,
    ensures
        stats_after_entries(stats, entries).total_entries == stats.total_entries + entries.len(),
        level_count(stats_after_entries(stats, entries), level) == level_count(stats, level)
            + select_level(entries, level_name(level)).len(),
        levels_within_total(stats_after_entries(stats, entries)),
    decreases entries.len(),
{
    if entries.len() > 0 {
        let next = stats.counted(entries[0].level);
        lemma_level_names_distinct();
        assert(stats.can_count(entries[0].level));
        law_counting_keeps_levels_within_total(stats, entries[0].level);
        law_counts_match_filter(next, entries.drop_first(), level);
    }
}

/// Reading a text line by line from zeroed statistics counts what the analyzer finds in it:
/// every entry it parses in the total, and at each level as many as its filter keeps;
/// lines that do not parse are counted nowhere.
pub proof fn law_streamed_counts_match_analyzer(s: Seq<char>, level: LogLevel)
    requires
        spec_entries(s).len() <= usize::MAX,
    ensures
        ({
            let zero = LogStats {
                total_entries: 0,
                error_count: 0,
                warn_count: 0,
                info_count: 0,
                debug_count: 0,
            };
            let streamed = stats_after_lines(zero, read_line_chunks(s));
            &&& streamed.total_entries == spec_entries(s).len()
            &&& level_count(streamed, level) == select_level(spec_entries(s), level_name(level)).len()
        }),
{
    let zero = LogStats {
        total_entries: 0,
        error_count: 0,
        warn_count: 0,
        info_count: 0,
        debug_count: 0,
    };
    law_streaming_matches_analyzer(zero, s);
    law_counts_match_filter(zero, spec_entries(s), level);
}

} // verus!
