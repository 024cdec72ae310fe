//! Formatting and emission of log events.
use core::fmt::Write;
use vstd::prelude::*;
use vstd::string::StringSliceAdditionalSpecFns;
use vstd::utf8::encode_utf8;

use crate::buffer::StackBuffer;
use crate::sink::LogSink;
use crate::text::lemma_encode_utf8_concat;
use crate::time_date::{dtime_text, reading_timestamp, DTime};
use crate::log_line;

verus! {

/// The log line of an event at time `now`.
pub open spec fn event_line(now: DTime, level: Seq<char>, target: Seq<char>, message: Seq<char>) -> Seq<
    char,
> {
    log_line(dtime_text(now), level, target, message)
}

/// Appends `piece` to a buffer that holds the encoding of `written`, where `written` and
/// `piece` begin the text `line`; when the piece does not fit, neither does `line`.
fn put<const N: usize>(
    buffer: &mut StackBuffer<N>,
    piece: &str,
    Ghost(written): Ghost<Seq<char>>,
    Ghost(line): Ghost<Seq<char>>,
) -> (ok: bool)
    requires
        old(buffer)@ == encode_utf8(written),
        encode_utf8(written).len() <= N,
        (written + piece@).len() <= line.len(),
        line.take((written + piece@).len() as int) == written + piece@,
    ensures
        ok == (encode_utf8(written + piece@).len() <= N),
        ok ==> final(buffer)@ == encode_utf8(written + piece@),
        !ok ==> encode_utf8(line).len() > N && final(buffer)@ == encode_utf8(line).take(N as int),
{
    let ghost done = written + piece@;
    let ghost rest = line.skip(done.len() as int);
    proof {
        lemma_encode_utf8_concat(written, piece@);
        assert(done + rest =~= line);
        lemma_encode_utf8_concat(done, rest);
    }
    let ok = buffer.write_str(piece).is_ok();
    proof {
        if !ok {
            assert(encode_utf8(line) == encode_utf8(written) + piece.spec_bytes() + encode_utf8(rest));
            assert(buffer@ =~= encode_utf8(line).take(N as int));
        }
    }
    ok
}

/// Writes the log line of an event into `buffer`; `true` when the whole line fits, and then
/// the buffer holds exactly its UTF-8 encoding; otherwise it holds as much of it as fits.
pub fn format_event<const N: usize>(
    buffer: &mut StackBuffer<N>,
    now: &DTime,
    level: &str,
    target: &str,
    message: &str,
) -> (fits: bool)
    ensures
        fits == (encode_utf8(event_line(*now, level@, target@, message@)).len() <= N),
        fits ==> final(buffer)@ == encode_utf8(event_line(*now, level@, target@, message@)),
        !fits ==> final(buffer)@ == encode_utf8(event_line(*now, level@, target@, message@)).take(
            N as int,
        ),
{
    let ghost line = event_line(*now, level@, target@, message@);
    buffer.clear();
    let mut stamp_buffer = StackBuffer::<32>::new();
    let stamp = now.text_into(&mut stamp_buffer);
    proof {
        reveal_strlit("[");
        reveal_strlit("] [");
        reveal_strlit("] ");
        reveal_strlit("\n");
        assert(encode_utf8(Seq::<char>::empty()) =~= Seq::<u8>::empty());
    }
    // the line, piece by piece
    let ghost p1 = seq!['['];
    let ghost p2 = p1 + stamp@;
    let ghost p3 = p2 + seq![']', ' ', '['];
    let ghost p4 = p3 + level@;
    let ghost p5 = p4 + seq![']', ' ', '['];
    let ghost p6 = p5 + target@;
    let ghost p7 = p6 + seq![']', ' '];
    let ghost p8 = p7 + message@;
    assert(line =~= p8 + seq!['\n']);
    assert(line.take(p1.len() as int) =~= p1 && Seq::<char>::empty() + "["@ =~= p1);
    if !put(buffer, "[", Ghost(Seq::empty()), Ghost(line)) {
        return false;
    }
    assert(line.take(p2.len() as int) =~= p2);
    if !put(buffer, stamp, Ghost(p1), Ghost(line)) {
        return false;
    }
    assert(line.take(p3.len() as int) =~= p3 && p2 + "] ["@ =~= p3);
    if !put(buffer, "] [", Ghost(p2), Ghost(line)) {
        return false;
    }
    assert(line.take(p4.len() as int) =~= p4);
    if !put(buffer, level, Ghost(p3), Ghost(line)) {
        return false;
    }
    assert(line.take(p5.len() as int) =~= p5 && p4 + "] ["@ =~= p5);
    if !put(buffer, "] [", Ghost(p4), Ghost(line)) {
        return false;
    }
    assert(line.take(p6.len() as int) =~= p6);
    if !put(buffer, target, Ghost(p5), Ghost(line)) {
        return false;
    }
    assert(line.take(p7.len() as int) =~= p7 && p6 + "] "@ =~= p7);
    if !put(buffer, "] ", Ghost(p6), Ghost(line)) {
        return false;
    }
    assert(line.take(p8.len() as int) =~= p8);
    if !put(buffer, message, Ghost(p7), Ghost(line)) {
        return false;
    }
    assert(line.take(line.len() as int) =~= line && p8 + "\n"@ =~= line);
    put(buffer, "\n", Ghost(p8), Ghost(line))
}

/// The sink went from `before` to `after` by taking the event's line, if the line fits in
/// 4096 bytes, and was left alone otherwise.
pub open spec fn event_delivered<S: LogSink>(
    before: S,
    after: S,
    now: DTime,
    level: Seq<char>,
    target: Seq<char>,
    message: Seq<char>,
) -> bool {
    let line = encode_utf8(event_line(now, level, target, message));
    if line.len() <= 4096 {
        before.takes_line(line, &after)
    } else {
        after == before
    }
}

/// Emits one log event through the line buffer of the calling thread.
///
/// `buffer` is that buffer, or `None` while another event of the same thread holds it;
/// then the event is dropped and `sink` is left alone. Otherwise the line
/// `[now] [level] [target] message`, time-stamped with the current UTC time, is formatted
/// into the buffer and goes to `sink` when it fits in the buffer's 4096 bytes; a longer line
/// is dropped.
pub fn log_event<S: LogSink>(
    sink: &mut S,
    buffer: Option<&mut StackBuffer<4096>>,
    level: &str,
    target: &str,
    message: &str,
)
    ensures
        buffer is None ==> *final(sink) == *old(sink),
        buffer is Some ==> exists|after_epoch: bool, secs: u64|
            event_delivered(
                *old(sink),
                *final(sink),
                #[trigger] DTime::spec_from_unix(reading_timestamp(after_epoch, secs) as int),
                level@,
                target@,
                message@,
            ),
{
    match buffer {
        Some(buffer) => {
            let now = DTime::now();
            let ghost reading = choose|after_epoch: bool, secs: u64|
                now == DTime::spec_from_unix(reading_timestamp(after_epoch, secs) as int);
            if format_event(buffer, &now, level, target, message) {
                let _ = sink.write_log(buffer.as_bytes());
            }
            assert(now == DTime::spec_from_unix(reading_timestamp(reading.0, reading.1) as int));
        },
        None => {},
    }
}

} // verus!
