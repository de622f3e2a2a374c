//! The output buffer: merged digests in text form gather in a buffer that is
//! handed out as one chunk to write whenever it reaches a size threshold.

use vstd::prelude::*;
use crate::digest::{digest_to_hex, hex_encode};

verus! {

/// The default size, in bytes, at which the buffer is handed out.
pub const FLUSH_THRESHOLD: usize = 10000;

/// Text that waits to be written, and the size at which it is handed out.
pub struct OutputBuffer {
    buf: Vec<u8>,
    threshold: usize,
}

impl OutputBuffer {
    /// The text that waits to be written.
    pub closed spec fn pending(&self) -> Seq<u8> {
        self.buf@
    }

    pub closed spec fn threshold(&self) -> nat {
        self.threshold as nat
    }

    /// An empty buffer that is handed out once it holds `threshold` bytes.
    pub fn new(threshold: usize) -> (r: OutputBuffer)
        ensures
            r.pending() == Seq::<u8>::empty(),
            r.threshold() == threshold,
    {
        OutputBuffer { buf: Vec::new(), threshold }
    }

    /// Adds the text form of digest `d` and a line break. When the buffer then
    /// holds at least the threshold, its text is returned to be written, and
    /// the buffer is left empty.
    pub fn push_digest(&mut self, d: &[u8]) -> (r: Option<Vec<u8>>)
        ensures
            final(self).threshold() == old(self).threshold(),
            ({
                let text = old(self).pending() + hex_encode(d@).push(10u8);
                if text.len() >= old(self).threshold() {
                    &&& r matches Some(chunk) && chunk@ == text
                    &&& final(self).pending() == Seq::<u8>::empty()
                } else {
                    &&& r is None
                    &&& final(self).pending() == text
                }
            }),
    {
        let mut line = digest_to_hex(d);
        line.push(10u8);
        self.buf.append(&mut line);
        if self.buf.len() >= self.threshold {
            let mut chunk: Vec<u8> = Vec::new();
            std::mem::swap(&mut chunk, &mut self.buf);
            Some(chunk)
        } else {
            None
        }
    }

    /// The text left in the buffer, if there is any.
    pub fn finish(self) -> (r: Option<Vec<u8>>)
        ensures
            r is None <==> self.pending().len() == 0,
            r matches Some(chunk) ==> chunk@ == self.pending(),
    {
        if self.buf.len() == 0 {
            None
        } else {
            Some(self.buf)
        }
    }
}

} // verus!
