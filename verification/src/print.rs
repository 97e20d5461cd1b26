//! Kernel console output: the bytes sent for a string, and the log writer
//! that queues them in the log ring buffer.
use vstd::prelude::*;

use crate::collections::ring_buffer::{RingBuffer, Writer};
use vstd::string::StringSliceAdditionalSpecFns;

verus! {

#[derive(Debug, PartialEq, Eq, Structural, Clone, Copy)]
pub enum Error {
    EarlyPrintFailed,
    PrintFailed,
    BufferFull,
    WriterLocked,
}

/// The bytes sent for `bytes`: every line feed goes out as a carriage
/// return and a line feed.
pub open spec fn console_bytes(bytes: Seq<u8>) -> Seq<u8>
    decreases bytes.len(),
{
    if bytes.len() == 0 {
        Seq::empty()
    } else {
        let rest = console_bytes(bytes.drop_last());
        if bytes.last() == 0x0a {
            rest.push(0x0d).push(0x0a)
        } else {
            rest.push(bytes.last())
        }
    }
}

/// The bytes a console device is sent for `s`.
pub fn console_encode(s: &str) -> (out: Vec<u8>)
    ensures
        out@ == console_bytes(s.spec_bytes()),
{
    let bytes = s.as_bytes();
    let mut out: Vec<u8> = Vec::new();
    let mut i: usize = 0;
    while i < bytes.len()
        invariant
            i <= bytes@.len(),
            out@ == console_bytes(bytes@.take(i as int)),
        decreases bytes@.len() - i,
    {
        let character = bytes[i];
        if character == 0x0a {
            out.push(0x0d);
        }
        out.push(character);
        proof {
            assert(bytes@.take(i as int + 1).drop_last() =~= bytes@.take(i as int));
        }
        i = i + 1;
    }
    assert(bytes@.take(bytes@.len() as int) =~= bytes@);
    out
}

/// Writes the log into a ring buffer through its writer end.
pub struct LogWriter<const SIZE: usize> {
    pub writer: Writer<SIZE>,
}

impl<const SIZE: usize> LogWriter<SIZE> {
    /// Queues the bytes of `s`, oldest first. When the buffer fills up the
    /// bytes that fit stay queued and the write fails.
    pub fn write_str(&mut self, buffer: &mut RingBuffer<SIZE>, s: &str) -> (result: Result<(), Error>)
        requires
            SIZE > 0,
            old(buffer).wf(),
        ensures
            final(buffer).wf(),
            final(buffer).spec_is_split() == old(buffer).spec_is_split(),
            old(buffer)@.len() + s.spec_bytes().len() <= SIZE - 1 ==> result is Ok && final(buffer)@
                == old(buffer)@ + s.spec_bytes(),
            old(buffer)@.len() + s.spec_bytes().len() > SIZE - 1 ==> (result matches Err(Error::BufferFull))
                && final(buffer)@ == old(buffer)@ + s.spec_bytes().take(SIZE - 1 - old(buffer)@.len()),
    {
        let bytes = s.as_bytes();
        let ghost start = buffer@;
        proof {
            buffer.lemma_len_bound();
        }
        let mut i: usize = 0;
        while i < bytes.len()
            invariant
                SIZE > 0,
                buffer.wf(),
                buffer.spec_is_split() == old(buffer).spec_is_split(),
                start == old(buffer)@,
                start.len() <= SIZE - 1,
                i <= bytes@.len(),
                bytes@ == s.spec_bytes(),
                start.len() + i <= SIZE - 1,
                buffer@ == start + bytes@.take(i as int),
            decreases bytes@.len() - i,
        {
            match self.writer.push(buffer, bytes[i]) {
                Ok(()) => {},
                Err(_) => {
                    proof {
                        assert(start.len() + i == SIZE - 1);
                    }
                    return Err(Error::BufferFull);
                },
            }
            assert(bytes@.take(i as int + 1) =~= bytes@.take(i as int).push(bytes@[i as int]));
            i = i + 1;
        }
        assert(bytes@.take(bytes@.len() as int) =~= bytes@);
        Ok(())
    }
}

} // verus!
