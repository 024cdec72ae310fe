//! A fixed-capacity byte buffer that log lines are formatted into.
use vstd::prelude::*;
use vstd::slice::slice_subrange;
use vstd::string::StringSliceAdditionalSpecFns;
use vstd::utf8::{is_char_boundary, valid_utf8, valid_utf8_concat, valid_utf8_split};

use crate::sink::str_from_utf8;

verus! {

#[verifier::external_type_specification]
#[verifier::external_body]
pub struct ExFmtError(core::fmt::Error);

/// Builds the error value of `core::fmt::Error`, a unit struct; nothing is claimed of it.
#[verifier::external_body]
fn fmt_error() -> core::fmt::Error {
    core::fmt::Error
}

/// What a buffer of capacity `cap` that holds `content` holds once `bytes` are written
/// to it: all of them when they fit, else as many as fill it to capacity.
pub open spec fn appended_within(content: Seq<u8>, bytes: Seq<u8>, cap: int) -> Seq<u8> {
    let room = cap - content.len();
    if bytes.len() <= room {
        content + bytes
    } else {
        content + bytes.take(room)
    }
}

/// What a buffer of capacity `cap` that holds `content` holds once each of `pieces`
/// has been written to it, in order.
pub open spec fn written_in_turn(content: Seq<u8>, pieces: Seq<Seq<u8>>, cap: int) -> Seq<u8>
    decreases pieces.len(),
{
    if pieces.len() == 0 {
        content
    } else {
        written_in_turn(appended_within(content, pieces[0], cap), pieces.drop_first(), cap)
    }
}

/// A fixed-capacity byte buffer that lives on the stack.
pub struct StackBuffer<const N: usize> {
    buf: [u8; N],
    len: usize,
}

impl<const N: usize> View for StackBuffer<N> {
    type V = Seq<u8>;

    closed spec fn view(&self) -> Seq<u8> {
        self.buf@.subrange(0, self.len as int)
    }
}

impl<const N: usize> StackBuffer<N> {
    #[verifier::type_invariant]
    closed spec fn inv(&self) -> bool {
        self.len <= N
    }

    /// An empty buffer.
    pub fn new() -> (r: Self)
        ensures
            r@ == Seq::<u8>::empty(),
    {
        Self { buf: [0u8; N], len: 0 }
    }

    /// The bytes written so far.
    pub fn as_bytes(&self) -> (r: &[u8])
        ensures
            r@ == self@,
            r@.len() <= N,
    {
        proof {
            use_type_invariant(self);
        }
        slice_subrange(self.buf.as_slice(), 0, self.len)
    }

    /// The contents as text; they must be valid UTF-8.
    pub fn as_str(&self) -> (r: &str)
        requires
            valid_utf8(self@),
        ensures
            r.spec_bytes() == self@,
    {
        match str_from_utf8(self.as_bytes()) {
            Ok(text) => text,
            Err(_) => "",
        }
    }

    /// Empties the buffer.
    pub fn clear(&mut self)
        ensures
            final(self)@ == Seq::<u8>::empty(),
    {
        self.len = 0;
    }
}

impl<const N: usize> Default for StackBuffer<N> {
    fn default() -> (r: Self)
        ensures
            r@ == Seq::<u8>::empty(),
    {
        Self::new()
    }
}

impl<const N: usize> core::fmt::Write for StackBuffer<N> {
    /// Appends the bytes of `s`; when they do not all fit, fills the buffer to capacity
    /// with as many as fit and reports an error.
    fn write_str(&mut self, s: &str) -> (r: core::fmt::Result)
        ensures
            r is Ok <==> old(self)@.len() + s.spec_bytes().len() <= N,
            final(self)@ == appended_within(old(self)@, s.spec_bytes(), N as int),
            final(self)@.len() <= N,
    {
        proof {
            use_type_invariant(&*self);
        }
        let bytes = s.as_bytes();
        let remaining = N - self.len;
        let (count, fits) = if bytes.len() > remaining {
            (remaining, false)
        } else {
            (bytes.len(), true)
        };
        let start = self.len;
        let mut i: usize = 0;
        while i < count
            invariant
                0 <= i <= count,
                count <= bytes@.len(),
                start + count <= N,
                self.len == start,
                self.buf@.len() == N,
                self.buf@.subrange(0, start as int) == old(self).buf@.subrange(0, start as int),
                forall|k: int| 0 <= k < i ==> self.buf@[start + k] == bytes@[k],
            decreases count - i,
        {
            self.buf[start + i] = bytes[i];
            i = i + 1;
        }
        self.len = start + count;
        assert(self@ =~= old(self)@ + bytes@.take(count as int));
        if fits { Ok(()) } else { Err(fmt_error()) }
    }
}

/// Writing `x` and then `y` leaves a buffer as writing `x + y` at once does.
pub proof fn law_writes_compose(content: Seq<u8>, x: Seq<u8>, y: Seq<u8>, cap: int)
    requires
        content.len() <= cap,
    ensures
        appended_within(appended_within(content, x, cap), y, cap) == appended_within(
            content,
            x + y,
            cap,
        ),
        appended_within(content, x, cap).len() <= cap,
{
    let room = cap - content.len();
    if x.len() <= room {
        let rest = room - x.len();
        if y.len() <= rest {
            assert(content + x + y =~= content + (x + y));
        } else {
            assert((x + y).take(room) =~= x + y.take(rest));
            assert(content + x + y.take(rest) =~= content + (x + y).take(room));
        }
    } else {
        assert((x + y).take(room) =~= x.take(room));
        if y.len() == 0 {
            assert(x + y =~= x);
        } else {
            assert(y.take(0) =~= Seq::<u8>::empty());
            assert(content + x.take(room) + y.take(0) =~= content + x.take(room));
        }
    }
}

/// Writing several pieces in turn leaves a buffer as writing them joined at once does:
/// from empty, it holds the joined pieces up to its capacity.
pub proof fn law_writes_in_turn(content: Seq<u8>, pieces: Seq<Seq<u8>>, cap: int)
    requires
        content.len() <= cap,
    ensures
        written_in_turn(content, pieces, cap) == appended_within(content, pieces.flatten(), cap),
        written_in_turn(content, pieces, cap).len() <= cap,
        content.len() == 0 ==> written_in_turn(content, pieces, cap) == pieces.flatten().take(
            if pieces.flatten().len() <= cap {
                pieces.flatten().len() as int
            } else {
                cap
            },
        ),
    decreases pieces.len(),
{
    if pieces.len() == 0 {
        assert(content + Seq::<u8>::empty() =~= content);
    } else {
        law_writes_compose(content, pieces[0], pieces.drop_first().flatten(), cap);
        law_writes_in_turn(appended_within(content, pieces[0], cap), pieces.drop_first(), cap);
        assert(pieces.flatten() == pieces[0] + pieces.drop_first().flatten());
    }
    if content.len() == 0 {
        let all = pieces.flatten();
        assert(content + all =~= all);
        assert(content + all.take(cap) =~= all.take(cap));
        assert(all.take(all.len() as int) =~= all);
    }
}

/// A write keeps the buffer valid UTF-8 when what it held and what is written are, and
/// a cut, if there is one, falls on a character boundary of what is written.
pub proof fn law_write_keeps_utf8(content: Seq<u8>, bytes: Seq<u8>, cap: int)
    requires
        content.len() <= cap,
        valid_utf8(content),
        valid_utf8(bytes),
        content.len() + bytes.len() <= cap || is_char_boundary(bytes, cap - content.len()),
    ensures
        valid_utf8(appended_within(content, bytes, cap)),
{
    let room = cap - content.len();
    if bytes.len() <= room {
        valid_utf8_concat(content, bytes);
    } else {
        valid_utf8_split(bytes, room);
        assert(bytes.subrange(0, room) =~= bytes.take(room));
        valid_utf8_concat(content, bytes.take(room));
    }
}

} // verus!
