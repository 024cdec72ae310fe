//! Destinations for formatted log lines.
use vstd::prelude::*;
use vstd::slice::slice_subrange;
use vstd::string::StringSliceAdditionalSpecFns;
use vstd::utf8::valid_utf8;
use crate::buffer::appended_within;

verus! {

#[verifier::external_type_specification]
#[verifier::external_body]
pub struct ExIoError(std::io::Error);

#[verifier::external_type_specification]
#[verifier::external_body]
pub struct ExUtf8Error(core::str::Utf8Error);

#[verifier::external_type_specification]
#[verifier::external_body]
pub struct ExStdout(std::io::Stdout);

/// `core::str::from_utf8`: succeeds exactly on well-formed UTF-8, and the text it gives
/// back is encoded by exactly the given bytes.
#[verifier::external_body]
pub(crate) fn str_from_utf8<'a>(v: &'a [u8]) -> (r: Result<&'a str, core::str::Utf8Error>)
    ensures
        r is Ok <==> valid_utf8(v@),
        r matches Ok(s) ==> s.spec_bytes() == v@,
{
    core::str::from_utf8(v)
}

/// `std::io::stdout`: a handle to the process's standard output; nothing is claimed of it.
#[verifier::external_body]
fn stdout_handle() -> std::io::Stdout {
    std::io::stdout()
}

/// `Write::write_all` on standard output; whether it succeeds depends on the environment,
/// so nothing is claimed of its result.
#[verifier::external_body]
fn stdout_write_all(out: &mut std::io::Stdout, data: &[u8]) -> std::io::Result<()> {
    std::io::Write::write_all(out, data)
}

/// `Write::flush` on standard output; nothing is claimed of its result.
#[verifier::external_body]
fn stdout_flush(out: &mut std::io::Stdout) -> std::io::Result<()> {
    std::io::Write::flush(out)
}

/// A destination for formatted log lines.
pub trait LogSink {
    /// `after` is what the sink becomes when it has been handed the bytes `data`; a sink
    /// that does not describe its state claims nothing.
    open spec fn takes_line(&self, data: Seq<u8>, after: &Self) -> bool {
        true
    }

    /// Hands one formatted log line to the sink.
    fn write_log(&mut self, data: &[u8]) -> (r: std::io::Result<()>)
        ensures
            old(self).takes_line(data@, final(self)),
    ;

    /// Flushes buffered output; sinks without a buffer do nothing.
    fn flush(&mut self) -> (r: std::io::Result<()>)
        default_ensures
            r is Ok,
    {
        Ok(())
    }
}

/// Writes log lines to standard output.
pub struct StdoutSink;

impl LogSink for StdoutSink {
    /// Standard output keeps nothing that the sink value could show.
    open spec fn takes_line(&self, data: Seq<u8>, after: &Self) -> bool {
        true
    }

    fn write_log(&mut self, data: &[u8]) -> std::io::Result<()> {
        let mut handle = stdout_handle();
        stdout_write_all(&mut handle, data)?;
        Ok(())
    }

    fn flush(&mut self) -> std::io::Result<()> {
        let mut handle = stdout_handle();
        stdout_flush(&mut handle)
    }
}

/// Keeps log output in memory, up to `N` bytes; what does not fit is dropped.
pub struct MemorySink<const N: usize> {
    buf: [u8; N],
    len: usize,
}

impl<const N: usize> View for MemorySink<N> {
    type V = Seq<u8>;

    closed spec fn view(&self) -> Seq<u8> {
        self.buf@.subrange(0, self.len as int)
    }
}

impl<const N: usize> MemorySink<N> {
    #[verifier::type_invariant]
    closed spec fn inv(&self) -> bool {
        self.len <= N
    }

    /// An empty sink.
    pub fn new() -> (r: Self)
        ensures
            r@ == Seq::<u8>::empty(),
    {
        Self { buf: [0u8; N], len: 0 }
    }

    /// The bytes received so far as text, or `""` when they are not valid UTF-8.
    pub fn as_str(&self) -> (r: &str)
        ensures
            valid_utf8(self@) ==> r.spec_bytes() == self@,
            !valid_utf8(self@) ==> r@ == Seq::<char>::empty(),
    {
        proof {
            use_type_invariant(self);
        }
        match str_from_utf8(slice_subrange(self.buf.as_slice(), 0, self.len)) {
            Ok(text) => text,
            Err(_) => {
                proof {
                    reveal_strlit("");
                }
                ""
            },
        }
    }
}

impl<const N: usize> LogSink for MemorySink<N> {
    /// The sink gains as much of `data` as still fits.
    open spec fn takes_line(&self, data: Seq<u8>, after: &Self) -> bool {
        after@ == appended_within(self@, data, N as int)
    }

    /// Appends as much of `data` as still fits.
    fn write_log(&mut self, data: &[u8]) -> (r: std::io::Result<()>)
        ensures
            r is Ok,
            final(self)@.len() <= N,
    {
        proof {
            use_type_invariant(&*self);
        }
        let remaining = N - self.len;
        let to_copy = if data.len() < remaining { data.len() } else { remaining };
        let start = self.len;
        let mut i: usize = 0;
        while i < to_copy
            invariant
                0 <= i <= to_copy,
                to_copy <= data@.len(),
                start + to_copy <= N,
                self.len == start,
                self.buf@.len() == N,
                self.buf@.subrange(0, start as int) == old(self).buf@.subrange(0, start as int),
                forall|k: int| 0 <= k < i ==> self.buf@[start + k] == data@[k],
            decreases to_copy - i,
        {
            self.buf[start + i] = data[i];
            i = i + 1;
        }
        self.len = start + to_copy;
        assert(self@ =~= old(self)@ + data@.take(to_copy as int));
        assert(old(self)@.len() == start);
        assert(data@.take(data@.len() as int) =~= data@);
        Ok(())
    }
}

} // verus!
